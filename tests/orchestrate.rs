use perspecta::launch::{DicomWebGroupedLaunchRequest, DicomWebLaunchRequest};
use perspecta::orchestrate::{
    instances_for_single_request, plan_single_request, GroupAction, GroupDownload, SingleStep,
};

fn grouped(groups: Vec<Vec<&str>>, open_group: usize) -> DicomWebGroupedLaunchRequest {
    DicomWebGroupedLaunchRequest {
        base_url: "http://h:1".to_string(),
        study_uid: "st".to_string(),
        groups: groups
            .into_iter()
            .map(|g| g.into_iter().map(|s| s.to_string()).collect())
            .collect(),
        open_group,
        username: None,
        password: None,
    }
}

fn one(uid: &str, view: &str, lat: &str) -> String {
    format!(r#"{{"00080018":{{"Value":["{uid}"]}},"00185101":{{"Value":["{view}"]}},"00200062":{{"Value":["{lat}"]}}}}"#)
}

#[test]
fn single_request_plans() {
    let mut request = DicomWebLaunchRequest {
        base_url: "http://h:1/".to_string(),
        study_uid: "st".to_string(),
        series_uid: Some("se".to_string()),
        instance_uid: None,
        username: None,
        password: None,
    };
    match plan_single_request(&request) {
        SingleStep::Metadata { base, url } => {
            assert_eq!(base, "http://h:1/dicom-web");
            assert_eq!(url, "http://h:1/dicom-web/studies/st/series/se/metadata");
        }
        _ => panic!("expected a metadata step"),
    }
    request.instance_uid = Some("in".to_string());
    match plan_single_request(&request) {
        SingleStep::Instance { instance_uid, .. } => assert_eq!(instance_uid, "in"),
        _ => panic!("expected an instance step"),
    }
    assert!(instances_for_single_request("[]", None).is_err());
    let json = format!("[{}]", one("u1", "CC", "R"));
    assert_eq!(instances_for_single_request(&json, None).unwrap()[0].instance_uid, "u1");
}

#[test]
fn grouped_download_walks_groups() {
    assert!(GroupDownload::new(&grouped(vec![], 0)).is_err());
    let mut state = GroupDownload::new(&grouped(vec![vec!["a", "b", "c", "d"], vec!["r"]], 5)).unwrap();
    for (k, series) in ["a", "b", "c", "d"].iter().enumerate() {
        match state.next_action() {
            GroupAction::FetchMetadata { url } => {
                assert_eq!(url, format!("http://h:1/dicom-web/studies/st/series/{series}/metadata"));
            }
            _ => panic!("expected a metadata fetch"),
        }
        let json = format!("[{}]", one(&format!("i{k}"), "CC", "R"));
        state = state.on_metadata(&json).unwrap();
    }
    match state.next_action() {
        GroupAction::Download { instances, streaming } => {
            assert_eq!(instances.len(), 4);
            assert!(!streaming);
        }
        _ => panic!("expected a download"),
    }
    state = state.on_group_downloaded();
    let report = format!("[{},{}]", one("x", "CC", "R"), one("y", "CC", "L"));
    assert!(matches!(state.next_action(), GroupAction::FetchMetadata { .. }));
    assert!(state.on_metadata(&report).is_err());
}

#[test]
fn grouped_download_finishes_with_clamped_group() {
    let mut state = GroupDownload::new(&grouped(vec![vec!["r"]], 3)).unwrap();
    state = state.on_metadata(&format!("[{}]", one("x", "MLO", "L"))).unwrap();
    match state.next_action() {
        GroupAction::Download { instances, streaming } => {
            assert_eq!(instances[0].instance_uid, "x");
            assert!(!streaming);
        }
        _ => panic!("expected a download"),
    }
    state = state.on_group_downloaded();
    assert!(matches!(state.next_action(), GroupAction::Finished { open_group: 0 }));
}

#[test]
fn bad_group_size_fails() {
    let state = GroupDownload::new(&grouped(vec![vec!["a", "b"]], 0)).unwrap();
    assert!(matches!(state.next_action(), GroupAction::Failed(_)));
}

#[test]
fn group_failures_name_group_and_series() {
    let state = GroupDownload::new(&grouped(vec![vec!["r"], vec!["a", "b"]], 0)).unwrap();
    let state = state.on_metadata(&format!("[{}]", one("x", "CC", "R"))).unwrap();
    let state = state.on_group_downloaded();
    match state.next_action() {
        GroupAction::Failed(m) => assert_eq!(
            m,
            "DICOMweb group 1 has 2 series UIDs; each group must contain exactly 1 or 4 series UIDs"
        ),
        _ => panic!("expected a failure"),
    }
    let state = GroupDownload::new(&grouped(vec![vec!["s9"]], 0)).unwrap();
    let err = state.on_metadata("[]").err().unwrap();
    assert!(err.starts_with("Group 0 series s9"));
}
