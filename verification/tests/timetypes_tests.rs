use alass::timetypes::{TimeDelta, TimePoint, TimeSpan};

#[test]
fn test_timing_display() {
    let t = -TimePoint::from_components(12, 59, 29, 450);
    assert_eq!(t.to_string(), "-12:59:29.450");

    let t = TimePoint::from_msecs(0);
    assert_eq!(t.to_string(), "0:00:00.000");
}

#[test]
fn components_round_trip() {
    let t = TimePoint::from_components(1, 2, 3, 456);
    assert_eq!(t.msecs(), 3_723_456);
    assert_eq!((t.hours(), t.mins_comp(), t.secs_comp(), t.msecs_comp()), (1, 2, 3, 456));
    assert_eq!(t.csecs_comp(), 45);
    assert_eq!(TimePoint::from_csecs(150).msecs(), 1500);
    assert_eq!(TimePoint::from_secs(2).msecs(), 2000);
    assert_eq!(TimePoint::from_mins(2).msecs(), 120_000);
    assert_eq!(TimePoint::from_hours(2).msecs(), 7_200_000);
}

#[test]
fn abs_and_is_negative() {
    assert!(TimePoint::from_msecs(-1).is_negative());
    assert!(!TimePoint::from_msecs(0).is_negative());
    assert_eq!(TimePoint::from_msecs(-7).abs(), TimePoint::from_msecs(7));
    assert_eq!(TimeDelta::from_msecs(7).abs(), TimeDelta::from_msecs(7));
}

#[test]
fn sub_assign_subtracts() {
    let mut d = TimeDelta::from_msecs(1000);
    d -= TimeDelta::from_msecs(400);
    assert_eq!(d, TimeDelta::from_msecs(600));

    let mut p = TimePoint::from_msecs(1000);
    p -= TimeDelta::from_msecs(400);
    assert_eq!(p, TimePoint::from_msecs(600));

    let mut s = TimeSpan::new(TimePoint::from_msecs(1000), TimePoint::from_msecs(2000));
    s -= TimeDelta::from_msecs(400);
    assert_eq!(s, TimeSpan::new(TimePoint::from_msecs(600), TimePoint::from_msecs(1600)));
    assert_eq!(
        s - TimeDelta::from_msecs(600),
        TimeSpan::new(TimePoint::from_msecs(0), TimePoint::from_msecs(1000))
    );
}

#[test]
fn add_assign_adds() {
    let mut s = TimeSpan::new(TimePoint::from_msecs(1000), TimePoint::from_msecs(2000));
    s += TimeDelta::from_msecs(400);
    assert_eq!(s, TimeSpan::new(TimePoint::from_msecs(1400), TimePoint::from_msecs(2400)));
}

#[test]
fn arithmetic_between_the_types() {
    let a = TimePoint::from_msecs(1000);
    let b = TimePoint::from_msecs(2500);
    assert_eq!(b - a, TimeDelta::from_msecs(1500));
    assert_eq!(a + TimeDelta::from_msecs(500), TimePoint::from_msecs(1500));
    assert_eq!(TimeDelta::from_msecs(500) + a, TimePoint::from_msecs(1500));
    assert_eq!(TimeDelta::from_msecs(500) - a, TimePoint::from_msecs(-500));
    assert!(a < b);
}

#[test]
fn timespan_len_and_is_empty() {
    let s = TimeSpan::new(TimePoint::from_msecs(1000), TimePoint::from_msecs(2500));
    assert_eq!(s.len(), TimeDelta::from_msecs(1500));
    assert!(!s.is_empty());
    assert!(TimeSpan::new(TimePoint::from_msecs(1000), TimePoint::from_msecs(1000)).is_empty());
}

#[test]
fn display_is_stable() {
    assert_eq!(TimeDelta::from_msecs(-1234).to_string(), "-0:00:01.234");
    assert_eq!(TimePoint::from_msecs(3_723_456).to_string(), "1:02:03.456");
}

#[test]
fn shifting_there_and_back_gives_the_same_span() {
    let s = TimeSpan::new(TimePoint::from_msecs(-300), TimePoint::from_msecs(4200));
    let d = TimeDelta::from_msecs(123_456);
    assert_eq!((s + d) - d, s);
    assert_eq!((s + d).len(), s.len());
}

#[test]
fn components_of_a_negative_time_stay_in_range() {
    let t = TimePoint::from_msecs(-1);
    assert_eq!((t.mins_comp(), t.secs_comp(), t.csecs_comp(), t.msecs_comp()), (0, 0, 0, 999));
    let d = TimeDelta::from_msecs(-61_001);
    assert_eq!((d.mins_comp(), d.secs_comp(), d.msecs_comp()), (59, 59, 999));
}
