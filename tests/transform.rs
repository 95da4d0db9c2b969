use control_loop::fixed::FixedPoint;
use control_loop::transform::{dqz, rotate_by, rotate_checked, AlphaBetaGamma, SquareRootState, TrigonometryState, Vector2};

const ONE: i64 = 1 << 16;

struct Table;

impl SquareRootState<FixedPoint<i64, 16>> for Table {
    fn sqrt(&self, val: FixedPoint<i64, 16>) -> FixedPoint<i64, 16> {
        assert_eq!(val.raw_value(), 3 * ONE);
        FixedPoint::raw(113512)
    }
}

/// Sine and cosine of multiples of a quarter turn, the angle given in quarter turns.
struct QuarterTurns;

impl TrigonometryState<FixedPoint<i64, 16>> for QuarterTurns {
    fn sin_cos(&self, val: FixedPoint<i64, 16>) -> (FixedPoint<i64, 16>, FixedPoint<i64, 16>) {
        let (s, c) = match val.raw_value().rem_euclid(4) {
            0 => (0, ONE),
            1 => (ONE, 0),
            2 => (0, -ONE),
            _ => (-ONE, 0),
        };
        (FixedPoint::raw(s), FixedPoint::raw(c))
    }
}

struct Doubling;

impl TrigonometryState<FixedPoint<i64, 16>> for Doubling {
    fn sin_cos(&self, _val: FixedPoint<i64, 16>) -> (FixedPoint<i64, 16>, FixedPoint<i64, 16>) {
        (FixedPoint::raw(0), FixedPoint::raw(2 * ONE))
    }
}

fn vector(x: i64, y: i64) -> Vector2<16> {
    Vector2 { x: FixedPoint::raw(x), y: FixedPoint::raw(y) }
}

fn angle(quarter_turns: i64) -> FixedPoint<i64, 16> {
    FixedPoint::raw(quarter_turns)
}

#[test]
fn precompute_builds_the_constants() {
    let k = AlphaBetaGamma::<16>::precompute(&Table).unwrap();
    let r = k.apply(vector(ONE, 0));
    assert_eq!(r.x.raw_value(), ONE);
    assert_eq!(r.y.raw_value(), 37837);
    let r = k.apply(vector(0, ONE));
    assert_eq!(r.x.raw_value(), 0);
    assert_eq!(r.y.raw_value(), 75674);
}

#[test]
fn apply_keeps_alpha_and_combines_beta() {
    let k = AlphaBetaGamma::<16>::from_sqrt3(FixedPoint::raw(113512)).unwrap();
    let r = k.apply(vector(3 * ONE, -2 * ONE));
    assert_eq!(r.x.raw_value(), 3 * ONE);
    assert_eq!(r.y.raw_value(), 3 * 37837 - 2 * 75674);
    let r = k.apply(vector(-1, 1));
    assert_eq!(r.x.raw_value(), -1);
    assert_eq!(r.y.raw_value(), 1);
}

#[test]
fn from_sqrt3_rejects_unusable_roots() {
    assert!(AlphaBetaGamma::<16>::from_sqrt3(FixedPoint::raw(0)).is_none());
    assert!(AlphaBetaGamma::<16>::from_sqrt3(FixedPoint::raw(-113512)).is_none());
    assert!(AlphaBetaGamma::<61>::from_sqrt3(FixedPoint::raw(1)).is_none());
    assert!(AlphaBetaGamma::<16>::from_sqrt3(FixedPoint::raw(1)).is_some());
}

#[test]
fn rotation_at_zero_is_the_identity() {
    for (x, y) in [(ONE, 0), (0, ONE), (-5, 7), (i64::MAX, i64::MIN)] {
        let r = rotate_by(FixedPoint::raw(0), FixedPoint::raw(ONE), vector(x, y));
        assert_eq!((r.x.raw_value(), r.y.raw_value()), (x, y));
    }
}

#[test]
fn rotation_at_a_quarter_turn() {
    let r = rotate_by(FixedPoint::raw(ONE), FixedPoint::raw(0), vector(3 * ONE, -2 * ONE));
    assert_eq!((r.x.raw_value(), r.y.raw_value()), (2 * ONE, 3 * ONE));
}

#[test]
fn rotation_by_a_general_angle_rounds_toward_zero() {
    // sin = cos = 0.5
    let half = ONE / 2;
    let r = rotate_by(FixedPoint::raw(half), FixedPoint::raw(half), vector(3, 1));
    assert_eq!((r.x.raw_value(), r.y.raw_value()), (1, 1));
}

#[test]
fn dqz_unit_vector_at_zero_and_half_turn() {
    let v = vector(ONE, 0);
    let r = dqz(&QuarterTurns, v, angle(0)).unwrap();
    assert_eq!((r.x.raw_value(), r.y.raw_value()), (ONE, 0));
    let r = dqz(&QuarterTurns, v, angle(2)).unwrap();
    assert_eq!((r.x.raw_value(), r.y.raw_value()), (-ONE, 0));
    let r = dqz(&QuarterTurns, vector(5, 9), angle(1)).unwrap();
    assert_eq!((r.x.raw_value(), r.y.raw_value()), (-9, 5));
}

#[test]
fn dqz_reports_overflow() {
    assert!(dqz(&Doubling, vector(i64::MAX, 0), angle(0)).is_none());
    let r = dqz(&Doubling, vector(4, -4), angle(0)).unwrap();
    assert_eq!((r.x.raw_value(), r.y.raw_value()), (8, -8));
}

#[test]
fn rotate_checked_reports_overflow() {
    let r = rotate_checked(FixedPoint::raw(0), FixedPoint::raw(2 * ONE), vector(i64::MAX, 0));
    assert!(r.is_none());
    let r = rotate_checked(FixedPoint::raw(ONE), FixedPoint::raw(0), vector(0, i64::MIN));
    assert!(r.is_none());
    let r = rotate_checked(FixedPoint::raw(ONE), FixedPoint::raw(0), vector(3, -2)).unwrap();
    assert_eq!((r.x.raw_value(), r.y.raw_value()), (2, 3));
}

#[test]
fn transforms_at_the_edge_scales() {
    let v: Vector2<0> = Vector2 { x: FixedPoint::raw(i64::MIN), y: FixedPoint::raw(i64::MIN) };
    let r = rotate_checked(FixedPoint::<i64, 0>::raw(0), FixedPoint::<i64, 0>::raw(1), v).unwrap();
    assert_eq!((r.x.raw_value(), r.y.raw_value()), (i64::MIN, i64::MIN));
    assert!(rotate_checked(FixedPoint::<i64, 0>::raw(i64::MIN), FixedPoint::<i64, 0>::raw(i64::MIN), v).is_none());
    let half: FixedPoint<i64, 63> = FixedPoint::raw(1 << 62);
    let w: Vector2<63> = Vector2 { x: FixedPoint::raw(1 << 40), y: FixedPoint::raw(-(1 << 40)) };
    let r = rotate_checked(half, half, w).unwrap();
    assert_eq!((r.x.raw_value(), r.y.raw_value()), (1 << 40, 0));
    assert!(AlphaBetaGamma::<63>::from_sqrt3(FixedPoint::raw(i64::MAX)).is_none());
    let k = AlphaBetaGamma::<62>::from_sqrt3(FixedPoint::raw(i64::MAX)).unwrap();
    let r = k.apply(Vector2 { x: FixedPoint::raw(1 << 62), y: FixedPoint::raw(0) });
    assert_eq!(r.x.raw_value(), 1 << 62);
    assert_eq!(r.y.raw_value(), 1 << 61);
}
