use luminary::pornpics::{extract_image_urls, pornstar_page_url, slugify, slugify_lowercase};

#[test]
fn slugify_handles_spaces_and_punctuation() {
    assert_eq!(slugify("Christina Sapphire"), "christina-sapphire");
    assert_eq!(slugify("  Anna  Claire   Clouds "), "anna-claire-clouds");
    assert_eq!(slugify("Vicky O'Hara"), "vicky-o-hara");
}

#[test]
fn extract_upscales_and_dedupes_in_order() {
    let html = r#"
            <img src="https://cdni.pornpics.com/460/7/445/111/111_001_a.jpg">
            <img data-src="https://cdni.pornpics.com/460/7/445/222/222_002_b.jpg"/>
            <img src="https://cdni.pornpics.com/460/7/445/111/111_001_a.jpg">
        "#;
    let urls = extract_image_urls(html, 10);
    assert_eq!(
        urls,
        vec![
            "https://cdni.pornpics.com/1280/7/445/111/111_001_a.jpg".to_string(),
            "https://cdni.pornpics.com/1280/7/445/222/222_002_b.jpg".to_string(),
        ]
    );
}

#[test]
fn extract_respects_max() {
    let html = "a https://cdni.pornpics.com/460/1/1/1/1_1_a.jpg \
                b https://cdni.pornpics.com/460/1/1/2/2_2_b.jpg \
                c https://cdni.pornpics.com/460/1/1/3/3_3_c.jpg";
    assert_eq!(extract_image_urls(html, 2).len(), 2);
}

#[test]
fn extract_ignores_non_images() {
    let html = "https://cdni.pornpics.com/460/1/1/1/page.html and text";
    assert!(extract_image_urls(html, 10).is_empty());
}

#[test]
fn extract_with_zero_max_returns_nothing() {
    let html = "https://cdni.pornpics.com/460/1/1/1/1_1_a.jpg";
    assert!(extract_image_urls(html, 0).is_empty());
}

#[test]
fn extract_stops_at_each_delimiter() {
    let html = "url('https://cdni.pornpics.com/460/9/9/9/9_9_z.webp') \
                x=https://cdni.pornpics.com/460/8/8/8/8_8_y.jpeg\\\"";
    assert_eq!(
        extract_image_urls(html, 5),
        vec![
            "https://cdni.pornpics.com/1280/9/9/9/9_9_z.webp".to_string(),
            "https://cdni.pornpics.com/1280/8/8/8/8_8_y.jpeg".to_string(),
        ]
    );
}

#[test]
fn extract_keeps_page_order_and_first_occurrence() {
    let html = "https://cdni.pornpics.com/460/2.jpg https://cdni.pornpics.com/460/1.jpg \
                https://cdni.pornpics.com/460/2.jpg https://cdni.pornpics.com/460/3.jpg";
    assert_eq!(
        extract_image_urls(html, 10),
        vec![
            "https://cdni.pornpics.com/1280/2.jpg".to_string(),
            "https://cdni.pornpics.com/1280/1.jpg".to_string(),
            "https://cdni.pornpics.com/1280/3.jpg".to_string(),
        ]
    );
}

#[test]
fn slugify_lowercases_unicode_and_drops_non_ascii() {
    assert_eq!(slugify("ÉVA Ñoño"), "va-o-o");
    assert_eq!(slugify("---"), "");
    assert_eq!(slugify(""), "");
    assert_eq!(slugify("A--B"), "a-b");
}

#[test]
fn slugify_lowercase_is_idempotent_on_slugs() {
    let s = slugify_lowercase("riley reid!!");
    assert_eq!(s, "riley-reid");
    assert_eq!(slugify_lowercase(&s), s);
}

#[test]
fn page_url_uses_the_slug() {
    assert_eq!(
        pornstar_page_url("Christina Sapphire"),
        "https://www.pornpics.com/pornstars/christina-sapphire/"
    );
}
