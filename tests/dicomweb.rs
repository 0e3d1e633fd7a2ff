use perspecta::dicomweb::{
    accept_variants, instance_urls, metadata_url, normalize_base_url, parse_metadata_instances,
    sanitize_for_file_name, MetadataInstance,
};
use perspecta::json::{first_tag_string, split_top_level_json_objects};
use perspecta::multipart::{extract_dicom_from_multipart, unwrap_dicom_multipart};
use perspecta::select::{reduce_series_instances, select_instances_for_viewer};

#[test]
fn split_top_level_objects_works() {
    let text = r#"[{"a":1},{"b":2},{"c":{"x":3}}]"#;
    let objects = split_top_level_json_objects(text).expect("should parse");
    assert_eq!(objects.len(), 3);
    assert!(objects[0].contains("\"a\":1"));
    assert!(objects[1].contains("\"b\":2"));
    assert!(objects[2].contains("\"c\""));
}

#[test]
fn extract_first_tag_string_works() {
    let object = r#"{"00080018":{"vr":"UI","Value":["instance_uid_alpha"]},"00200013":{"vr":"IS","Value":[42]}}"#;
    assert_eq!(
        first_tag_string(object, "00080018").as_deref(),
        Some("instance_uid_alpha")
    );
    assert_eq!(first_tag_string(object, "00200013").as_deref(), Some("42"));
}

#[test]
fn normalize_base_url_adds_dicomweb_path_for_root_url() {
    assert_eq!(
        normalize_base_url("http://localhost:8042"),
        "http://localhost:8042/dicom-web"
    );
    assert_eq!(
        normalize_base_url("http://localhost:8042/"),
        "http://localhost:8042/dicom-web"
    );
}

#[test]
fn normalize_base_url_keeps_explicit_path() {
    assert_eq!(
        normalize_base_url("http://localhost:8042/dicom-web"),
        "http://localhost:8042/dicom-web"
    );
    assert_eq!(
        normalize_base_url("http://localhost:8042/server/dicom-web/"),
        "http://localhost:8042/server/dicom-web"
    );
}

#[test]
fn metadata_url_uses_standard_wado_rs_paths() {
    assert_eq!(
        metadata_url("http://localhost:8042/dicom-web", "study_uid_alpha", None),
        "http://localhost:8042/dicom-web/studies/study_uid_alpha/metadata"
    );
    assert_eq!(
        metadata_url(
            "http://localhost:8042/dicom-web",
            "study_uid_alpha",
            Some("series_uid_beta"),
        ),
        "http://localhost:8042/dicom-web/studies/study_uid_alpha/series/series_uid_beta/metadata"
    );
}

#[test]
fn extract_dicom_from_multipart_returns_payload() {
    let payload = b"DICOM-BYTES-\x00\x01\x02";
    let body = [
        b"--my-boundary\r\nContent-Type: application/dicom\r\n\r\n".as_slice(),
        payload.as_slice(),
        b"\r\n--my-boundary--\r\n".as_slice(),
    ]
    .concat();
    let extracted = extract_dicom_from_multipart(&body).expect("multipart should parse");
    assert_eq!(extracted, payload);
}

#[test]
fn extract_dicom_from_multipart_ignores_plain_payload() {
    let body = b"plain-dicom-payload".to_vec();
    assert!(extract_dicom_from_multipart(&body).is_none());
}

#[test]
fn multipart_with_lf_line_ends() {
    let body = b"--b\nX: y\n\nPAYLOAD\n--b--\n".to_vec();
    assert_eq!(extract_dicom_from_multipart(&body).unwrap(), b"PAYLOAD".to_vec());
    assert_eq!(unwrap_dicom_multipart(body), b"PAYLOAD".to_vec());
}

#[test]
fn unwrap_passes_plain_body_through() {
    let body = b"DICM-raw".to_vec();
    assert_eq!(unwrap_dicom_multipart(body.clone()), body);
}

#[test]
fn metadata_with_only_instance_uid() {
    let json = r#"[{"00080018":{"vr":"UI","Value":["uid1"]}}]"#;
    let instances = parse_metadata_instances(json).expect("metadata should parse");
    assert_eq!(instances.len(), 1);
    assert_eq!(instances[0].instance_uid, "uid1");
    assert_eq!(instances[0].series_uid, None);
    assert_eq!(instances[0].view_position, None);
    assert_eq!(instances[0].laterality, None);
    assert_eq!(instances[0].instance_number, None);
}

#[test]
fn metadata_fields_and_fallbacks() {
    let json = r#"[{"00080018":{"Value":["u1"]},"0020000E":{"Value":["s1"]},"00200013":{"Value":[" 7"]},"00185101":{"Value":["MLO"]},"00200060":{"Value":["L"]}},{"00080018":{"Value":["  "]}},{"00200013":{"Value":[3]}}]"#;
    let instances = parse_metadata_instances(json).unwrap();
    assert_eq!(instances.len(), 1);
    let m = &instances[0];
    assert_eq!(m.series_uid.as_deref(), Some("s1"));
    assert_eq!(m.view_position.as_deref(), Some("MLO"));
    assert_eq!(m.laterality.as_deref(), Some("L"));
    assert_eq!(m.instance_number, None);
}

#[test]
fn metadata_number_and_escapes() {
    let json = r#"[{"00080018":{"Value":["a\"bA"]},"00200013":{"Value":[-12]},"00200062":{"Value":[null]},"00200060":{"Value":["R"]}}]"#;
    let instances = parse_metadata_instances(json).unwrap();
    assert_eq!(instances[0].instance_uid, "a\"bA");
    assert_eq!(instances[0].instance_number, Some(-12));
    assert_eq!(instances[0].laterality.as_deref(), Some("R"));
}

#[test]
fn unbalanced_metadata_fails() {
    assert!(parse_metadata_instances(r#"[{"00080018":{"Value":["a"]}"#).is_err());
    assert!(split_top_level_json_objects("}").is_err());
    assert!(split_top_level_json_objects(r#"[{"a":"}"#).is_err());
}

#[test]
fn braces_inside_strings_do_not_count() {
    let objects = split_top_level_json_objects(r#"[{"a":"}{"},{"b":"\"}"}]"#).unwrap();
    assert_eq!(objects, vec![r#"{"a":"}{"}"#.to_string(), r#"{"b":"\"}"}"#.to_string()]);
}

#[test]
fn normalize_base_url_strips_query_and_spaces() {
    assert_eq!(normalize_base_url("  http://h:1/?x=1#f "), "http://h:1/dicom-web");
    assert_eq!(normalize_base_url("http://h:1/a/b?q"), "http://h:1/a/b");
    assert_eq!(normalize_base_url("   "), "");
    assert_eq!(normalize_base_url("localhost"), "localhost/dicom-web");
}

#[test]
fn normalizing_twice_changes_nothing() {
    let once = normalize_base_url("http://host:8042");
    assert_eq!(normalize_base_url(&once), once);
    let once = normalize_base_url("http://host:8042/dicom-web/");
    assert_eq!(once, "http://host:8042/dicom-web");
    assert_eq!(normalize_base_url(&once), once);
}

#[test]
fn instance_urls_series_first() {
    let urls = instance_urls("http://b", "st", Some("se"), "in");
    assert_eq!(
        urls,
        vec![
            "http://b/studies/st/series/se/instances/in".to_string(),
            "http://b/studies/st/instances/in".to_string()
        ]
    );
    assert_eq!(instance_urls("http://b", "st", None, "in"), vec!["http://b/studies/st/instances/in".to_string()]);
}

#[test]
fn accept_variants_in_order() {
    let a = accept_variants();
    assert_eq!(a.len(), 4);
    assert_eq!(a[0], "application/dicom");
    assert_eq!(a[3], "multipart/related; type=\"application/dicom\"");
}

#[test]
fn file_names_are_sanitized() {
    assert_eq!(sanitize_for_file_name("1.2.3/a b:c_d-e"), "1.2.3_a_b_c_d-e");
}

fn inst(uid: &str, view: &str, lat: &str, series: Option<&str>, number: Option<i32>) -> MetadataInstance {
    MetadataInstance {
        series_uid: series.map(|s| s.to_string()),
        instance_uid: uid.to_string(),
        view_position: Some(view.to_string()),
        laterality: Some(lat.to_string()),
        instance_number: number,
    }
}

#[test]
fn quartet_comes_back_in_canonical_order() {
    let input = vec![
        inst("lmlo", "MLO", "L", None, None),
        inst("rcc", "CC", "R", None, None),
        inst("rmlo", "MLO", "RIGHT", None, None),
        inst("lcc", "cc", "left", None, None),
    ];
    let out = reduce_series_instances(input).unwrap();
    let uids: Vec<&str> = out.iter().map(|m| m.instance_uid.as_str()).collect();
    assert_eq!(uids, vec!["rcc", "lcc", "rmlo", "lmlo"]);
}

#[test]
fn six_without_left_mlo_fails() {
    let input = vec![
        inst("a", "CC", "R", None, None),
        inst("b", "CC", "L", None, None),
        inst("c", "MLO", "R", None, None),
        inst("d", "CC", "R", None, Some(2)),
        inst("e", "CC", "L", None, Some(3)),
        inst("f", "MLO", "R", None, Some(1)),
    ];
    assert!(reduce_series_instances(input).is_err());
}

#[test]
fn more_than_four_picks_first_of_each_slot() {
    let input = vec![
        inst("x2", "CC", "R", None, Some(2)),
        inst("x1", "CC", "R", None, Some(1)),
        inst("b", "CC", "L", None, None),
        inst("c", "MLO", "R", None, None),
        inst("d", "MLO", "L", None, None),
        inst("z", "LAT", "L", None, None),
    ];
    let out = reduce_series_instances(input).unwrap();
    let uids: Vec<&str> = out.iter().map(|m| m.instance_uid.as_str()).collect();
    assert_eq!(uids, vec!["x1", "b", "c", "d"]);
}

#[test]
fn single_instance_passes_and_two_fail() {
    let one = reduce_series_instances(vec![inst("only", "X", "Y", None, None)]).unwrap();
    assert_eq!(one[0].instance_uid, "only");
    let err = reduce_series_instances(vec![inst("a", "CC", "R", None, None), inst("b", "CC", "L", None, None)]).unwrap_err();
    assert!(err.contains("2"));
}

#[test]
fn select_by_series_and_by_groups() {
    let study = vec![
        inst("one", "CC", "R", Some("s2"), None),
        inst("a", "CC", "R", Some("s1"), None),
        inst("b", "CC", "L", Some("s1"), None),
        inst("c", "MLO", "R", Some("s1"), None),
        inst("d", "MLO", "L", Some("s1"), None),
    ];
    let picked = select_instances_for_viewer(study.clone(), Some("s2")).unwrap();
    assert_eq!(picked.len(), 1);
    assert_eq!(picked[0].instance_uid, "one");
    let picked = select_instances_for_viewer(study.clone(), None).unwrap();
    assert_eq!(picked.len(), 4);
    assert!(select_instances_for_viewer(study.clone(), Some("nope")).is_err());
    let two = vec![inst("x", "CC", "R", Some("s1"), None), inst("y", "CC", "R", Some("s2"), None)];
    assert!(select_instances_for_viewer(two, None).is_err());
    assert!(select_instances_for_viewer(Vec::new(), None).is_err());
}

#[test]
fn unicode_escapes_decode() {
    let object = r#"{"00080018":{"Value":["Aé\ud800x\u12"]}}"#;
    assert_eq!(first_tag_string(object, "00080018").as_deref(), Some("Aéx"));
}

#[test]
fn instance_number_range() {
    let at = |n: &str| {
        let json = format!(r#"[{{"00080018":{{"Value":["u"]}},"00200013":{{"Value":[{n}]}}}}]"#);
        parse_metadata_instances(&json).unwrap()[0].instance_number
    };
    assert_eq!(at("2147483647"), Some(i32::MAX));
    assert_eq!(at("2147483648"), None);
    assert_eq!(at("-2147483648"), Some(i32::MIN));
    assert_eq!(at("+5"), Some(5));
    assert_eq!(at("5x"), None);
}

use perspecta::dicomweb::download_failure_message;

#[test]
fn download_failures_are_all_listed() {
    let attempts = vec!["u1 (Accept: a) => 404".to_string(), "u2 (Accept: b) => 500".to_string()];
    assert_eq!(
        download_failure_message("st", Some("se"), "in", &attempts),
        "Failed downloading DICOM instance from study st, series se, instance in: u1 (Accept: a) => 404; u2 (Accept: b) => 500"
    );
    assert_eq!(
        download_failure_message("st", None, "in", &[]),
        "Failed downloading DICOM instance from study st, series (none), instance in: no successful download attempts"
    );
}

#[test]
fn reduce_error_names_the_count() {
    let three = vec![
        inst("a", "CC", "R", None, None),
        inst("b", "CC", "L", None, None),
        inst("c", "MLO", "R", None, None),
    ];
    assert_eq!(
        reduce_series_instances(three).unwrap_err(),
        "Series has 3 instances; only 1 image or a mammography quartet of 4 can be opened."
    );
}
