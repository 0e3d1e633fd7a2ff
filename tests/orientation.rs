use perspecta::mammo::{
    classify_laterality, classify_view, normalize_token, preferred_slots_for_laterality,
};
use perspecta::orientation::{normalize_laterality, normalize_view_position};

#[test]
fn view_positions_normalize() {
    assert_eq!(normalize_view_position(" cc ").as_deref(), Some("CC"));
    assert_eq!(normalize_view_position("R-10242").as_deref(), Some("CC"));
    assert_eq!(normalize_view_position("medio-lateral oblique").as_deref(), Some("MLO"));
    assert_eq!(normalize_view_position(" LAT ").as_deref(), Some("LAT"));
    assert_eq!(normalize_view_position(" - "), None);
}

#[test]
fn lateralities_normalize() {
    assert_eq!(normalize_laterality("right").as_deref(), Some("R"));
    assert_eq!(normalize_laterality(" l ").as_deref(), Some("L"));
    assert_eq!(normalize_laterality("ORIGINAL\\PRIMARY\\LEFT").as_deref(), Some("L"));
    assert_eq!(normalize_laterality(" B ").as_deref(), Some("B"));
    assert_eq!(normalize_laterality(""), None);
}

#[test]
fn tokens_and_classes() {
    assert_eq!(normalize_token(Some(" m lo ")), "MLO");
    assert_eq!(normalize_token(None), "");
    assert_eq!(classify_view(Some("mlo")), Some("MLO"));
    assert_eq!(classify_view(Some("cc")), Some("CC"));
    assert_eq!(classify_view(Some("XCCL")), None);
    assert_eq!(classify_laterality(Some("Right")), Some("R"));
    assert_eq!(classify_laterality(Some("left")), Some("L"));
    assert_eq!(classify_laterality(Some("B")), None);
    assert_eq!(classify_laterality(None), None);
}

#[test]
fn slot_preferences() {
    assert_eq!(preferred_slots_for_laterality(Some("R")), [0, 2, 1, 3]);
    assert_eq!(preferred_slots_for_laterality(Some("L")), [1, 3, 0, 2]);
    assert_eq!(preferred_slots_for_laterality(None), [0, 1, 2, 3]);
}

use perspecta::mammo::{order_mammo_indices, preferred_mammo_slot, MammoTags};

fn tags(view: Option<&str>, lat: Option<&str>) -> MammoTags {
    MammoTags {
        view_position: view.map(|s| s.to_string()),
        laterality: lat.map(|s| s.to_string()),
    }
}

#[test]
fn grid_order_puts_views_in_their_slots() {
    let items = vec![
        tags(Some("MLO"), Some("L")),
        tags(Some("CC"), Some("R")),
        tags(None, None),
        tags(Some("CC"), Some("L")),
    ];
    assert_eq!(order_mammo_indices(&items), vec![1, 2, 3, 0]);
    let two = vec![tags(Some("MLO"), Some("R")), tags(Some("CC"), Some("L"))];
    assert_eq!(order_mammo_indices(&two), vec![0, 1]);
    assert_eq!(order_mammo_indices(&[]), Vec::<usize>::new());
}

#[test]
fn preferred_slot_falls_back_by_laterality() {
    let rcc = tags(Some("CC"), Some("R"));
    assert_eq!(preferred_mammo_slot(&rcc, &[true, true, true, true]), Some(0));
    assert_eq!(preferred_mammo_slot(&rcc, &[false, true, true, true]), Some(2));
    assert_eq!(preferred_mammo_slot(&rcc, &[false, true, false, true]), Some(1));
    assert_eq!(preferred_mammo_slot(&rcc, &[false, false, false, false]), None);
}

use perspecta::mammo::{mammo_label, mammo_sort_key};

#[test]
fn labels_and_display_keys() {
    assert_eq!(mammo_label(&tags(Some("CC"), Some("R")), "a.dcm"), "RCC (a.dcm)");
    assert_eq!(mammo_label(&tags(None, Some("left")), "b.dcm"), "L (b.dcm)");
    assert_eq!(mammo_label(&tags(Some("MLO"), None), "c.dcm"), "MLO (c.dcm)");
    assert_eq!(mammo_label(&tags(None, None), "DICOM"), "DICOM");
    assert_eq!(
        mammo_sort_key(&tags(Some("MLO"), Some("L")), None, "x.dcm"),
        (1, 1, i32::MAX, "x.dcm".to_string())
    );
    assert_eq!(mammo_sort_key(&tags(Some("AX"), Some("R")), Some(3), "y"), (2, 0, 3, "y".to_string()));
}
