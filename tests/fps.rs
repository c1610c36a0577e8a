use lsystem::FpsComponent;

#[test]
fn frames_within_a_second_are_counted() {
    let mut fps = FpsComponent::new();
    assert!(!fps.tick(0));
    assert!(!fps.tick(500));
    assert!(!fps.tick(1000));
    assert_eq!(fps.frames_in_second(), 3);
    assert_eq!(fps.last_second_frame_count(), 0);
}

#[test]
fn a_frame_past_the_second_closes_it() {
    let mut fps = FpsComponent::new();
    for ms in [10u128, 20, 30, 40] {
        assert!(!fps.tick(ms));
    }
    assert!(fps.tick(1001));
    assert_eq!(fps.last_second_frame_count(), 4);
    assert_eq!(fps.frames_in_second(), 0);
    assert!(!fps.tick(5));
    assert_eq!(fps.frames_in_second(), 1);
    assert_eq!(fps.last_second_frame_count(), 4);
}

#[test]
fn a_long_gap_closes_the_second() {
    let mut fps = FpsComponent::new();
    for _ in 0..3 {
        fps.tick(1);
    }
    assert!(fps.tick(u128::MAX));
    assert_eq!(fps.last_second_frame_count(), 3);
}
