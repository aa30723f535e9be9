use luminary::query::{parse, parse_lowercase, pick, titlecase};

#[test]
fn eyed_blondes_who_look_like() {
    let q = parse("blue eyed blondes that look like Naughty Alysha");
    assert_eq!(q.eye.as_deref(), Some("Blue"));
    assert_eq!(q.hair.as_deref(), Some("Blonde"));
    assert_eq!(q.looks_like, vec!["Naughty Alysha".to_string()]);
    assert!(q.body_like.is_empty());
}

#[test]
fn eyed_blondes_with_a_butt_like() {
    let q = parse("blue eyed blondes with a butt like Dee Siren");
    assert_eq!(q.eye.as_deref(), Some("Blue"));
    assert_eq!(q.hair.as_deref(), Some("Blonde"));
    assert_eq!(q.body_like, vec!["Dee Siren".to_string()]);
    assert!(q.looks_like.is_empty());
}

#[test]
fn two_references_face_and_butt() {
    let q = parse("brunettes that look like Riley Reid with a butt like Jada Stevens");
    assert_eq!(q.hair.as_deref(), Some("Brunette"));
    assert_eq!(q.looks_like, vec!["Riley Reid".to_string()]);
    assert_eq!(q.body_like, vec!["Jada Stevens".to_string()]);
}

#[test]
fn brown_eyes_need_the_eye_cue() {
    let q = parse("brown eyed latina built like Sheena Ryder");
    assert_eq!(q.eye.as_deref(), Some("Brown"));
    assert_eq!(q.ethnicity.as_deref(), Some("Latin"));
    assert_eq!(q.body_like, vec!["Sheena Ryder".to_string()]);
}

#[test]
fn brown_hair_alone_is_not_brown_eyes() {
    let q = parse("brown haired asian");
    assert_eq!(q.eye, None);
    assert_eq!(q.hair, None);
    assert_eq!(q.ethnicity.as_deref(), Some("Asian"));
}

#[test]
fn trailing_like_is_not_a_clause() {
    let q = parse("redheads like");
    assert!(q.looks_like.is_empty());
    assert!(q.body_like.is_empty());
    assert_eq!(q.hair.as_deref(), Some("Red"));
}

#[test]
fn empty_name_after_like_is_skipped() {
    let q = parse("looks like and built like Dee");
    assert!(q.looks_like.is_empty());
    assert_eq!(q.body_like, vec!["Dee".to_string()]);
}

#[test]
fn no_qualifier_defaults_to_face() {
    let q = parse("like Abella Danger");
    assert_eq!(q.looks_like, vec!["Abella Danger".to_string()]);
    assert!(q.body_like.is_empty());
}

#[test]
fn names_after_like_do_not_set_attributes() {
    let q = parse("looks like Blue Angel");
    assert_eq!(q.eye, None);
    assert_eq!(q.looks_like, vec!["Blue Angel".to_string()]);
}

#[test]
fn no_like_uses_all_words_as_head() {
    let q = parse("Green eyed EBONY");
    assert_eq!(q.eye.as_deref(), Some("Green"));
    assert_eq!(q.ethnicity.as_deref(), Some("Black"));
    assert!(q.looks_like.is_empty());
}

#[test]
fn parse_lowercase_does_not_lowercase() {
    let q = parse_lowercase("Blue eyed");
    assert_eq!(q.eye, None);
    let q = parse_lowercase("blue eyed");
    assert_eq!(q.eye.as_deref(), Some("Blue"));
}

#[test]
fn titlecase_capitalises_each_word() {
    assert_eq!(titlecase("naughty alysha"), "Naughty Alysha");
    assert_eq!(titlecase("  dee   siren "), "Dee Siren");
    assert_eq!(titlecase("straße"), "Straße");
    assert_eq!(titlecase("ßa"), "SSa");
    assert_eq!(titlecase(""), "");
}

#[test]
fn pick_takes_the_first_matching_entry() {
    let table = [("blond", "Blonde"), ("red hair", "Red")];
    assert_eq!(pick("red hair blonde", &table).as_deref(), Some("Blonde"));
    assert_eq!(pick("red hair", &table).as_deref(), Some("Red"));
    assert_eq!(pick("brunette", &table), None);
}

#[test]
fn whitespace_layout_does_not_change_the_parse() {
    let spaced = parse("  blue   eyed\tblondes  that look like \n Naughty   Alysha ");
    let plain = parse("blue eyed blondes that look like Naughty Alysha");
    assert_eq!(spaced, plain);
}

#[test]
fn text_after_the_first_like_does_not_change_attributes() {
    let a = parse("blondes like Blue Ebony with a butt like Asian Red");
    let b = parse("blondes like Dee");
    let head = parse("blondes");
    assert_eq!((a.hair.clone(), a.eye.clone(), a.ethnicity.clone()), (b.hair.clone(), b.eye.clone(), b.ethnicity.clone()));
    assert_eq!((a.hair, a.eye, a.ethnicity), (head.hair, head.eye, head.ethnicity));
}

#[test]
fn attributes_are_those_of_the_words_before_like() {
    let full = parse("brown eyed latinas that look like Red Hair Blonde");
    let head = parse("brown eyed latinas that look");
    assert_eq!(
        (full.hair, full.eye, full.ethnicity),
        (head.hair, head.eye, head.ethnicity)
    );
}
