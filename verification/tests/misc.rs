use cantucci::dist_map::Inclusion;
use cantucci::fps::FpsTimer;
use cantucci::math::clamp;

#[test]
fn clamp_restricts_to_range() {
    assert_eq!(clamp(5, 0, 10), 5);
    assert_eq!(clamp(-3, 0, 10), 0);
    assert_eq!(clamp(42, 0, 10), 10);
    assert_eq!(clamp(0, 0, 10), 0);
    assert_eq!(clamp(10u8, 0, 10), 10);
}

#[test]
fn inclusion_queries() {
    assert!(Inclusion::Inside.is_inside());
    assert!(!Inclusion::Inside.is_outside());
    assert!(Inclusion::Outside.is_outside());
    assert!(!Inclusion::Outside.is_inside());
}

#[test]
fn fps_timer_counts_frames() {
    let mut t = FpsTimer::new();
    t.register_frame();
    t.register_frame();
    assert_eq!(t.take_report(100), None);
    t.register_frame();
    assert_eq!(t.take_report(250), Some(3));
    assert_eq!(t.take_report(300), Some(0));
}
