use beat_blobs::beat::BeatScheduler;

#[test]
fn whole_periods_give_that_many_beats_and_zero_phase() {
    for k in 0..5u64 {
        let mut s = BeatScheduler::new(250);
        assert_eq!(s.advance(k * 250), k);
        assert_eq!(s.phase(), (0, 250));
    }
}

#[test]
fn partial_period_leaves_remainder_as_phase() {
    let mut s = BeatScheduler::new(250);
    assert_eq!(s.advance(3 * 250 + 100), 3);
    assert_eq!(s.phase(), (100, 250));
    assert_eq!(s.advance(100), 0);
    assert_eq!(s.phase(), (200, 250));
    assert_eq!(s.advance(60), 1);
    assert_eq!(s.phase(), (10, 250));
}

#[test]
fn small_frames_accumulate_into_beats() {
    let mut s = BeatScheduler::new(100);
    let mut ticks = 0;
    for _ in 0..10 {
        ticks += s.advance(30);
    }
    assert_eq!(ticks, 3);
    assert_eq!(s.phase(), (0, 100));
    assert_eq!(s.period(), 100);
}
