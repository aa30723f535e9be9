use luminary::stashdb::{largest_image_urls, match_image_urls_of, StashImage, StashPerformer};

fn img(url: &str, width: u32, height: u32) -> StashImage {
    StashImage { url: url.to_string(), width, height }
}

#[test]
fn largest_images_come_first_and_ties_keep_order() {
    let imgs = vec![
        img("small", 10, 10),
        img("big", 100, 100),
        img("tie1", 20, 50),
        img("tie2", 50, 20),
    ];
    assert_eq!(
        largest_image_urls(&imgs, 10),
        vec!["big".to_string(), "tie1".to_string(), "tie2".to_string(), "small".to_string()]
    );
    assert_eq!(largest_image_urls(&imgs, 2), vec!["big".to_string(), "tie1".to_string()]);
    assert!(largest_image_urls(&imgs, 0).is_empty());
}

#[test]
fn huge_dimensions_do_not_overflow() {
    let imgs = vec![img("a", u32::MAX, u32::MAX), img("b", u32::MAX, 1)];
    assert_eq!(largest_image_urls(&imgs, 5), vec!["a".to_string(), "b".to_string()]);
}

#[test]
fn only_the_first_match_is_used() {
    let ps = vec![
        StashPerformer { images: vec![img("p1", 1, 1)] },
        StashPerformer { images: vec![img("p2", 9, 9)] },
    ];
    assert_eq!(match_image_urls_of(&ps, 3), vec!["p1".to_string()]);
    assert!(match_image_urls_of(&Vec::new(), 3).is_empty());
}
