use subparse::timetypes::{TimeDelta, TimePoint, TimeSpan};

#[test]
fn test_timing_display() {
    let t = TimePoint::from_components(12, 59, 29, 450).neg();
    assert_eq!(t.to_string(), "-12:59:29.450".to_string());

    let t = TimePoint::from_msecs(0);
    assert_eq!(t.to_string(), "0:00:00.000".to_string());
}

#[test]
fn component_folding() {
    // components fold arithmetically, without clamping
    assert_eq!(
        TimePoint::from_components(0, 0, 3, -2000),
        TimePoint::from_components(0, 0, 1, 0)
    );
    assert_eq!(TimePoint::from_components(0, 0, 3, -2000).msecs(), 1000);
    assert_eq!(TimePoint::from_components(0, 0, 70, 0).mins(), 1);
    assert_eq!(TimeDelta::from_components(1, 2, 3, 4).msecs(), 3723004);
}

#[test]
fn constructors_and_accessors() {
    let t = TimePoint::from_components(1, 2, 3, 450);
    assert_eq!(t.hours(), 1);
    assert_eq!(t.mins_comp(), 2);
    assert_eq!(t.secs_comp(), 3);
    assert_eq!(t.msecs_comp(), 450);
    assert_eq!(t.csecs_comp(), 45);
    assert_eq!(TimePoint::from_secs(7).msecs(), 7000);
    assert_eq!(TimePoint::from_csecs(7).msecs(), 70);
    assert_eq!(TimePoint::from_mins(2).msecs(), 120000);
    assert_eq!(TimePoint::from_hours(1).msecs(), 3600000);
    assert_eq!(TimeDelta::from_mins(1).msecs(), 60000);
}

#[test]
fn negative_components_use_absolute_value() {
    let t = TimePoint::from_msecs(-1500);
    assert!(t.is_negative());
    assert_eq!(t.secs(), -1);
    assert_eq!(t.secs_comp(), 1);
    assert_eq!(t.msecs_comp(), 500);
    assert_eq!(t.abs().msecs(), 1500);
}

#[test]
fn span_length() {
    let s = TimeSpan::new(TimePoint::from_msecs(1500), TimePoint::from_msecs(3700));
    assert_eq!(s.len().msecs(), 2200);
    assert_eq!(s.start.msecs(), 1500);
    assert_eq!(s.end.msecs(), 3700);
}

#[test]
fn arithmetic() {
    let t = TimePoint::from_msecs(1000).add_delta(TimeDelta::from_msecs(500));
    assert_eq!(t.msecs(), 1500);
    let d = TimePoint::from_msecs(1500).sub_point(TimePoint::from_msecs(1000));
    assert_eq!(d.msecs(), 500);
    assert_eq!(TimeDelta::from_msecs(2).add_delta(TimeDelta::from_msecs(3)).msecs(), 5);
    assert_eq!(TimeDelta::from_msecs(2).sub_delta(TimeDelta::from_msecs(3)).msecs(), -1);
    assert_eq!(TimeDelta::from_msecs(-7).neg().msecs(), 7);
}
