use avis::feature::{Interval, Overflow, Pipe};
use avis::geometry::UNIT;

#[test]
fn test_pipe_scale() {
    let p = Pipe::from(&[0, UNIT, 2 * UNIT][..]).fit_to(&Interval::new(-2 * UNIT, 0));
    assert_eq!(p.apply(0), -2 * UNIT);
    assert_eq!(p.apply(UNIT), -UNIT);
    assert_eq!(p.apply(2 * UNIT), 0);
}

#[test]
fn test_pipe_overflow() {
    // Saturate
    let p = Pipe::from(&[0, UNIT, 2 * UNIT][..])
        .overflow(Overflow::Saturate)
        .set_domain(&Interval::new(-UNIT, UNIT))
        .fit_to(&Interval::new(-2 * UNIT, 0));
    assert_eq!(p.apply(0), -UNIT);
    assert_eq!(p.apply(UNIT), 0);
    assert_eq!(p.apply(2 * UNIT), 0);

    // Default: Extend
    let p = Pipe::from(&[0, UNIT, 2 * UNIT][..])
        .set_domain(&Interval::new(-UNIT, UNIT))
        .fit_to(&Interval::new(-2 * UNIT, 0));
    assert_eq!(p.apply(0), -UNIT);
    assert_eq!(p.apply(UNIT), 0);
    assert_eq!(p.apply(2 * UNIT), UNIT);
}

#[test]
fn saturate_clamps_and_extend_does_not() {
    let domain = Interval::new(-1, 1);
    let range = Interval::new(-2, 0);
    let saturating = Pipe::new(domain, range).overflow(Overflow::Saturate);
    let extending = Pipe::new(domain, range).overflow(Overflow::Extend);
    assert_eq!(saturating.apply(2), 0);
    assert_eq!(extending.apply(2), 1);
    assert_eq!(saturating.apply(-5), -2);
    assert_eq!(extending.apply(-5), -6);
}

#[test]
fn round_trip_on_inverted_domain() {
    let domain = Interval::new(71 * UNIT, 25 * UNIT);
    let range = Interval::new(-2 * UNIT, 2 * UNIT);
    for overflow in [Overflow::Extend, Overflow::Saturate] {
        let p = Pipe::new(domain, range).overflow(overflow);
        assert_eq!(p.apply(71 * UNIT), -2 * UNIT);
        assert_eq!(p.apply(25 * UNIT), 2 * UNIT);
        assert_eq!(p.apply(48 * UNIT), 0);
    }
}

#[test]
fn round_trip_on_inverted_range() {
    let p = Pipe::new(Interval::new(-7, 13), Interval::new(1000, -3000)).overflow(Overflow::Saturate);
    assert_eq!(p.apply(-7), 1000);
    assert_eq!(p.apply(13), -3000);
    // beyond the domain's end: clamped to the low end of the inverted range
    assert_eq!(p.apply(100), -3000);
}

#[test]
fn division_rounds_toward_zero() {
    let p = Pipe::new(Interval::new(0, 3), Interval::new(0, 1));
    assert_eq!(p.apply(1), 0);
    assert_eq!(p.apply(-1), 0);
    assert_eq!(p.apply(-4), -1);
    assert_eq!(p.apply(5), 1);
}

#[test]
fn degenerate_domain_is_widened() {
    let p = Pipe::new(Interval::new(5, 5), Interval::new(0, 10));
    assert_eq!(p.domain, Interval::new(5, 6));
    assert_eq!(p.apply(6), 10);
    let top = Pipe::new(Interval::new(i32::MAX, i32::MAX), Interval::new(0, 10));
    assert_eq!(top.domain, Interval::new(i32::MAX, i32::MAX - 1));
    let q = Pipe::new(Interval::new(0, 1), Interval::new(0, 1)).set_domain(&Interval::new(3, 3));
    assert_eq!(q.domain, Interval::new(3, 4));
}

#[test]
fn inferred_domain_spans_the_sample() {
    let p = Pipe::from(&[4, -3, 9, 0][..]);
    assert_eq!(p.domain, Interval::new(-3, 9));
    assert_eq!(p.range, Interval::new(-3, 9));
    assert_eq!(p.overflow, Overflow::Extend);
    assert_eq!(p.apply(7), 7);

    let single = Pipe::from(&[8][..]);
    assert_eq!(single.domain, Interval::new(8, 9));
    assert_eq!(single.range, Interval::new(8, 9));

    let empty = Pipe::from(&[][..]);
    assert_eq!(empty.domain, Interval::new(i32::MIN, i32::MAX));
}

#[test]
fn checked_apply_reports_overflow() {
    let p = Pipe::new(Interval::new(0, 1), Interval::new(0, i32::MAX));
    assert_eq!(p.checked_apply(1), Some(i32::MAX));
    assert_eq!(p.checked_apply(2), None);
    assert_eq!(p.apply_wide(2), 2 * (i32::MAX as i128));
    let s = p.overflow(Overflow::Saturate);
    assert_eq!(s.checked_apply(2), Some(i32::MAX));
}

#[test]
fn feature_converts_its_content() {
    let f = Pipe::new(Interval::new(0, 10), Interval::new(0, 100)).bundle(vec![0, 1, 5, 10, 12]);
    assert_eq!(f.convert(), vec![0, 10, 50, 100, 120]);
    assert_eq!(f.content, vec![0, 1, 5, 10, 12]);
}
