use luminary::eval::{count_relevant, hits_at_k, ideal_hits, relevant_ranks};

#[test]
fn hits_clamp_k_to_the_list() {
    assert_eq!(hits_at_k(&[true, false, true, false], 2), 1);
    assert_eq!(hits_at_k(&[true, true, false], 2), 2);
    assert_eq!(hits_at_k(&[true, false], 10), 1);
    assert_eq!(hits_at_k(&[], 5), 0);
}

#[test]
fn relevant_count_and_ranks() {
    assert_eq!(count_relevant(&[true, false, true]), 2);
    assert_eq!(relevant_ranks(&[true, false, true]), vec![1, 3]);
    assert_eq!(relevant_ranks(&[false, false]), Vec::<usize>::new());
}

#[test]
fn ideal_hits_fit_in_k() {
    assert_eq!(ideal_hits(&[true, false, true], 3), 2);
    assert_eq!(ideal_hits(&[true, true, true], 2), 2);
    assert_eq!(ideal_hits(&[false, true], 10), 1);
    assert!(hits_at_k(&[false, true, true, false], 2) <= ideal_hits(&[false, true, true, false], 2));
}
