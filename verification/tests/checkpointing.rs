use portable_collections::Checkpoint;

#[test]
fn origin_is_zero_and_is_the_default() {
    assert_eq!(Checkpoint::origin().as_len(), 0);
    assert_eq!(Checkpoint::default(), Checkpoint::origin());
}

#[test]
fn from_len_as_len_round_trip() {
    for n in [0usize, 1, 7, 1000] {
        assert_eq!(Checkpoint::from_len(n).as_len(), n);
    }
}

#[test]
fn ordering_follows_captured_len() {
    // An outer (earlier, smaller) scope compares `<` an inner (later) one.
    assert!(Checkpoint::from_len(2) < Checkpoint::from_len(5));
    assert_eq!(Checkpoint::from_len(4), Checkpoint::from_len(4));
    assert!(Checkpoint::origin() <= Checkpoint::from_len(0));
}
