use luminary::source::{classify_view, gallery_split, ImageSource, ManualSource};

#[test]
fn view_front_rear_comes_from_face_not_pose() {
    assert_eq!(classify_view(Some("frontal"), true), "front");
    assert_eq!(classify_view(Some("frontal"), false), "rear");
    assert_eq!(classify_view(Some("side"), true), "side");
    assert_eq!(classify_view(Some("side"), false), "side");
    assert_eq!(classify_view(None, true), "front");
    assert_eq!(classify_view(None, false), "unknown");
}

#[test]
fn unrecognised_pose_falls_back_to_the_face() {
    assert_eq!(classify_view(Some("back"), true), "front");
    assert_eq!(classify_view(Some("Side"), false), "unknown");
}

#[test]
fn gallery_split_spreads_across_shoots() {
    assert_eq!(gallery_split(24), (4, 6));
    assert_eq!(gallery_split(1), (1, 6));
}

#[test]
fn gallery_split_rounds_up_and_never_goes_below_one() {
    assert_eq!(gallery_split(0), (1, 6));
    assert_eq!(gallery_split(25), (5, 6));
    assert_eq!(gallery_split(30), (5, 6));
}

#[test]
fn manual_source_returns_its_urls_verbatim() {
    let src = ManualSource {
        urls: vec!["https://example/a.jpg".to_string()],
    };
    assert_eq!(src.name(), "manual");
    assert_eq!(
        src.gather("ignored", 99),
        vec!["https://example/a.jpg".to_string()]
    );
}

#[test]
fn manual_source_ignores_max() {
    let src = ManualSource {
        urls: vec!["a".to_string(), "b".to_string(), "c".to_string()],
    };
    assert_eq!(src.gather("x", 1).len(), 3);
}
