use lexparse::claims::{first_unclaimed, reading_order, resolve};

#[test]
fn longer_span_displaces_shorter_ones() {
    // Two one-byte claims, then a three-byte span over both.
    let spans = vec![(0usize, 1usize), (2, 3), (0, 3)];
    let (owner, taken) = resolve(4, &spans);
    assert_eq!(owner, vec![Some(2), Some(2), Some(2), None]);
    assert_eq!(taken, vec![true, true, true]);
    assert_eq!(first_unclaimed(&owner), Some(3));
    assert_eq!(reading_order(4, &spans, &owner, &taken), vec![2]);
}

#[test]
fn equal_or_longer_claim_turns_newcomer_away() {
    let spans = vec![(0usize, 2usize), (1, 3), (0, 2), (2, 4)];
    let (owner, taken) = resolve(4, &spans);
    assert_eq!(taken, vec![true, false, false, true]);
    assert_eq!(owner, vec![Some(0), Some(0), Some(3), Some(3)]);
    assert_eq!(first_unclaimed(&owner), None);
    assert_eq!(reading_order(4, &spans, &owner, &taken), vec![0, 3]);
}

#[test]
fn displaced_claim_frees_its_other_bytes() {
    // (5,8) is turned away by (3,7); (0,5) then displaces (3,7), leaving 5 and
    // 6 free for the shorter (5,7).
    let spans = vec![(3usize, 7usize), (5, 8), (0, 5), (5, 7)];
    let (owner, taken) = resolve(8, &spans);
    assert_eq!(taken, vec![true, false, true, true]);
    assert_eq!(
        owner,
        vec![Some(2), Some(2), Some(2), Some(2), Some(2), Some(3), Some(3), None]
    );
    assert_eq!(first_unclaimed(&owner), Some(7));
}

#[test]
fn empty_spans_are_kept_in_reading_order() {
    let spans = vec![(1usize, 3usize), (1, 1), (0, 1), (3, 3)];
    let (owner, taken) = resolve(3, &spans);
    assert_eq!(taken, vec![true, true, true, true]);
    assert_eq!(reading_order(3, &spans, &owner, &taken), vec![2, 0, 1, 3]);
}

#[test]
fn nothing_offered_leaves_everything_unclaimed() {
    let spans: Vec<(usize, usize)> = vec![];
    let (owner, taken) = resolve(2, &spans);
    assert_eq!(owner, vec![None, None]);
    assert!(taken.is_empty());
    assert_eq!(first_unclaimed(&owner), Some(0));
    let (owner, _) = resolve(0, &spans);
    assert_eq!(first_unclaimed(&owner), None);
}
