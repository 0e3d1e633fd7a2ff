use perspecta::launch::{
    parse_launch_request_from_args, parse_perspecta_uri, DicomWebGroupedLaunchRequest,
    DicomWebLaunchRequest, LaunchRequest,
};

fn s(v: &str) -> String {
    v.to_string()
}

#[test]
fn parse_single_path_query() {
    let request = parse_perspecta_uri("perspecta://open?path=example-data%2Fa.dcm")
        .expect("URI should parse");
    assert_eq!(request, LaunchRequest::LocalPaths(vec![s("example-data/a.dcm")]));
}

#[test]
fn parse_repeated_path_params() {
    let request = parse_perspecta_uri(
        "perspecta://open?path=example-data%2Frcc.dcm&path=example-data%2Flcc.dcm&path=example-data%2Frmlo.dcm&path=example-data%2Flmlo.dcm",
    )
    .expect("URI should parse");
    assert_eq!(
        request,
        LaunchRequest::LocalPaths(vec![
            s("example-data/rcc.dcm"),
            s("example-data/lcc.dcm"),
            s("example-data/rmlo.dcm"),
            s("example-data/lmlo.dcm"),
        ])
    );
}

#[test]
fn parse_dicomweb_request() {
    let request = parse_perspecta_uri(
        "perspecta://open?dicomweb=http%3A%2F%2Flocalhost%3A8042%2Fdicom-web&study=study_uid_alpha&series=series_uid_beta",
    )
    .expect("URI should parse");
    assert_eq!(
        request,
        LaunchRequest::DicomWeb(DicomWebLaunchRequest {
            base_url: s("http://localhost:8042/dicom-web"),
            study_uid: s("study_uid_alpha"),
            series_uid: Some(s("series_uid_beta")),
            instance_uid: None,
            username: None,
            password: None,
        })
    );
}

#[test]
fn parse_dicomweb_root_with_auth() {
    let request = parse_perspecta_uri(
        "perspecta://open?dicomweb=http%3A%2F%2Flocalhost%3A8042&study_instance_uid=study_uid_alpha&user=vieweruser&password=viewerpass",
    )
    .expect("URI should parse");
    assert_eq!(
        request,
        LaunchRequest::DicomWeb(DicomWebLaunchRequest {
            base_url: s("http://localhost:8042"),
            study_uid: s("study_uid_alpha"),
            series_uid: None,
            instance_uid: None,
            username: Some(s("vieweruser")),
            password: Some(s("viewerpass")),
        })
    );
}

#[test]
fn parse_dicomweb_embedded_path_extracts_uids() {
    let request = parse_perspecta_uri(
        "perspecta://open?dicomweb=http%3A%2F%2Flocalhost%3A8042%2Fdicom-web%2Fstudies%2Fstudy_uid_alpha%2Fseries%2Fseries_uid_beta%2Finstances%2Finstance_uid_gamma",
    )
    .expect("URI should parse");
    assert_eq!(
        request,
        LaunchRequest::DicomWeb(DicomWebLaunchRequest {
            base_url: s("http://localhost:8042/dicom-web"),
            study_uid: s("study_uid_alpha"),
            series_uid: Some(s("series_uid_beta")),
            instance_uid: Some(s("instance_uid_gamma")),
            username: None,
            password: None,
        })
    );
}

#[test]
fn parse_dicomweb_requires_study() {
    let error = parse_perspecta_uri(
        "perspecta://open?dicomweb=http%3A%2F%2Flocalhost%3A8042%2Fdicom-web",
    )
    .expect_err("URI should fail");
    assert!(error.contains("requires 'study'"));
}

#[test]
fn parse_dicomweb_auth_requires_user_and_password() {
    let error = parse_perspecta_uri(
        "perspecta://open?dicomweb=http%3A%2F%2Flocalhost%3A8042%2Fdicom-web&study=study_uid_alpha&user=vieweruser",
    )
    .expect_err("URI should fail");
    assert!(error.contains("both user and password"));
}

#[test]
fn parse_dicomweb_grouped_series_request() {
    let request = parse_perspecta_uri(
        "perspecta://open?dicomweb=http%3A%2F%2Flocalhost%3A8042%2Fdicom-web&study=study_uid_alpha&group_series=series_a|series_b|series_c|series_d&group_series=series_report&open_group=0",
    )
    .expect("URI should parse");
    assert_eq!(
        request,
        LaunchRequest::DicomWebGroups(DicomWebGroupedLaunchRequest {
            base_url: s("http://localhost:8042/dicom-web"),
            study_uid: s("study_uid_alpha"),
            groups: vec![
                vec![s("series_a"), s("series_b"), s("series_c"), s("series_d")],
                vec![s("series_report")],
            ],
            open_group: 0,
            username: None,
            password: None,
        })
    );
}

#[test]
fn parse_dicomweb_grouped_series_requires_dicomweb_url() {
    let error = parse_perspecta_uri(
        "perspecta://open?study=study_uid_alpha&group_series=series_a|series_b|series_c|series_d",
    )
    .expect_err("URI should fail");
    assert!(error.contains("Grouped DICOMweb launch requires dicomweb"));
}

#[test]
fn parse_grouped_local_request() {
    let request = parse_perspecta_uri(
        "perspecta://open?group=example-data%2Frcc.dcm|example-data%2Flcc.dcm|example-data%2Frmlo.dcm|example-data%2Flmlo.dcm&group=example-data%2Freport.dcm",
    )
    .expect("URI should parse");
    assert_eq!(
        request,
        LaunchRequest::LocalGroups {
            groups: vec![
                vec![
                    s("example-data/rcc.dcm"),
                    s("example-data/lcc.dcm"),
                    s("example-data/rmlo.dcm"),
                    s("example-data/lmlo.dcm"),
                ],
                vec![s("example-data/report.dcm")],
            ],
            open_group: 0,
        }
    );
}

#[test]
fn parse_grouped_local_request_with_open_group() {
    let request = parse_perspecta_uri(
        "perspecta://open?group=example-data%2Fa.dcm&group=example-data%2Fb.dcm&open_group=1",
    )
    .expect("URI should parse");
    assert_eq!(
        request,
        LaunchRequest::LocalGroups {
            groups: vec![vec![s("example-data/a.dcm")], vec![s("example-data/b.dcm")]],
            open_group: 1,
        }
    );
}

#[test]
fn parse_cli_falls_back_to_raw_paths() {
    let args = vec![
        s("example-data/a.dcm"),
        s("example-data/b.dcm"),
        s("example-data/c.dcm"),
        s("example-data/d.dcm"),
    ];
    let parsed = parse_launch_request_from_args(&args).expect("args should parse");
    assert_eq!(
        parsed,
        Some(LaunchRequest::LocalPaths(vec![
            s("example-data/a.dcm"),
            s("example-data/b.dcm"),
            s("example-data/c.dcm"),
            s("example-data/d.dcm"),
        ]))
    );
}

#[test]
fn open_flag_without_paths_fails() {
    let args = vec![s("--open")];
    assert!(parse_launch_request_from_args(&args).is_err());
}

#[test]
fn open_flag_skips_the_flag() {
    let args = vec![s("--open"), s("x.dcm")];
    assert_eq!(
        parse_launch_request_from_args(&args).unwrap(),
        Some(LaunchRequest::LocalPaths(vec![s("x.dcm")]))
    );
}

#[test]
fn no_args_is_no_request() {
    assert_eq!(parse_launch_request_from_args(&[]).unwrap(), None);
}

#[test]
fn scheme_is_case_insensitive_and_location_path_is_read() {
    let request = parse_perspecta_uri("PERSPECTA://open/dir%2Fx.dcm").unwrap();
    assert_eq!(request, LaunchRequest::LocalPaths(vec![s("dir/x.dcm")]));
}

#[test]
fn wrong_scheme_fails() {
    assert!(parse_perspecta_uri("http://open?path=a.dcm").is_err());
}

#[test]
fn bad_percent_encoding_fails() {
    assert!(parse_perspecta_uri("perspecta://open?path=a%2").is_err());
    assert!(parse_perspecta_uri("perspecta://open?path=a%zz").is_err());
}

#[test]
fn plus_decodes_to_space_and_paths_split_on_commas() {
    let request = parse_perspecta_uri("perspecta://open?paths=a+b.dcm,,c.dcm").unwrap();
    assert_eq!(request, LaunchRequest::LocalPaths(vec![s("a b.dcm"), s("c.dcm")]));
}

#[test]
fn group_of_three_fails() {
    assert!(parse_perspecta_uri("perspecta://open?group=a|b|c").is_err());
}

#[test]
fn open_group_is_clamped_to_last_group() {
    let request = parse_perspecta_uri("perspecta://open?group=a&group=b&open_group=9").unwrap();
    assert_eq!(
        request,
        LaunchRequest::LocalGroups { groups: vec![vec![s("a")], vec![s("b")]], open_group: 1 }
    );
}

#[test]
fn open_group_must_be_a_number() {
    assert!(parse_perspecta_uri("perspecta://open?group=a&open_group=x").is_err());
}

#[test]
fn auth_pair_sets_credentials() {
    let request = parse_perspecta_uri(
        "perspecta://open?dicomweb=http%3A%2F%2Fh%2Fdw&study=s1&auth=u%3Ap",
    )
    .unwrap();
    assert_eq!(
        request,
        LaunchRequest::DicomWeb(DicomWebLaunchRequest {
            base_url: s("http://h/dw"),
            study_uid: s("s1"),
            series_uid: None,
            instance_uid: None,
            username: Some(s("u")),
            password: Some(s("p")),
        })
    );
    assert!(parse_perspecta_uri("perspecta://open?dicomweb=http%3A%2F%2Fh&study=s&auth=nocolon").is_err());
}

#[test]
fn credentials_without_dicomweb_fail() {
    assert!(parse_perspecta_uri("perspecta://open?path=a.dcm&user=u&pass=p").is_err());
}

#[test]
fn mixing_groups_and_paths_fails() {
    assert!(parse_perspecta_uri("perspecta://open?group=a&path=b").is_err());
}

#[test]
fn empty_uri_has_no_path() {
    assert!(parse_perspecta_uri("perspecta://open").is_err());
}

#[test]
fn percent_decoding_reads_utf8() {
    let request = parse_perspecta_uri("perspecta://open?path=caf%C3%A9.dcm").unwrap();
    assert_eq!(request, LaunchRequest::LocalPaths(vec![s("café.dcm")]));
    assert!(parse_perspecta_uri("perspecta://open?path=%FF.dcm").is_err());
}
