use luminary::tpdb::{infer_body_type, performer_page_url, performer_url, profile_image_url, search_url};

#[test]
fn body_type_from_cup_letters() {
    assert_eq!(infer_body_type(Some("36DD-27-38")), "Curvy");
    assert_eq!(infer_body_type(Some("34E-26-36")), "Curvy");
    assert_eq!(infer_body_type(Some("34F")), "Curvy");
    assert_eq!(infer_body_type(Some("34D-25-35")), "Average");
    assert_eq!(infer_body_type(Some("34dd")), "Average");
    assert_eq!(infer_body_type(None), "Average");
}

#[test]
fn search_url_percent_encodes_the_name() {
    assert_eq!(
        search_url("Riley Reid"),
        "https://api.theporndb.net/performers?q=Riley%20Reid"
    );
    assert_eq!(
        search_url("Vicky O'Hara-é~"),
        "https://api.theporndb.net/performers?q=Vicky%20O%27Hara-%C3%A9~"
    );
}

#[test]
fn detail_and_page_urls() {
    assert_eq!(performer_url("abc"), "https://api.theporndb.net/performers/abc");
    assert_eq!(performer_page_url("abc"), "https://theporndb.net/performers/abc");
}

#[test]
fn profile_image_prefers_the_main_image() {
    let gallery = vec!["g1".to_string(), "g2".to_string()];
    assert_eq!(profile_image_url(Some("main".to_string()), &gallery).as_deref(), Some("main"));
    assert_eq!(profile_image_url(None, &gallery).as_deref(), Some("g1"));
    assert_eq!(profile_image_url(None, &Vec::new()), None);
}
