use control_loop::fixed::FixedPoint;

#[test]
fn test() {
    let fixed: FixedPoint<i128, 90> =
        FixedPoint::<i128, 90>::new(3000000000).div::<0, 90>(FixedPoint::<i128, 0>::new(10));
    let result = fixed.add(FixedPoint::<i128, 90>::new(55).div::<0, 90>(FixedPoint::<i128, 0>::new(100)));
    assert_eq!(result.raw_value(), 371382012466481104076696418394518323);
    assert_eq!(
        result.to_decimal_string(),
        "300000000.549999999999999999999999999838441286610736782251677989830085380162927322089672088623046875"
    );
    assert_eq!(
        result.to_binary_string(),
        "00000000010001111000011010001100000000.100011001100110011001100110011001100110011001100110011001100110011001100110011001100110011"
    );
}

#[test]
fn new_shifts_by_the_scale() {
    assert_eq!(FixedPoint::<i64, 16>::new(3).raw_value(), 3 << 16);
    assert_eq!(FixedPoint::<i64, 16>::new(-3).raw_value(), -3 << 16);
    assert_eq!(FixedPoint::<u8, 4>::new(5).raw_value(), 80);
    assert_eq!(FixedPoint::<i128, 90>::new(55).raw_value(), 55i128 << 90);
    assert_eq!(FixedPoint::<i64, 0>::new(7).raw_value(), 7);
}

#[test]
fn raw_keeps_the_bits() {
    assert_eq!(FixedPoint::<i64, 16>::raw(12345).raw_value(), 12345);
    assert_eq!(FixedPoint::<u8, 8>::raw(255).raw_value(), 255);
    assert_eq!(FixedPoint::<i128, 128>::raw(i128::MIN).raw_value(), i128::MIN);
}

#[test]
fn add_and_sub_of_one_scale() {
    let a = FixedPoint::<i64, 8>::new(2);
    let b = FixedPoint::<i64, 8>::raw(128);
    assert_eq!(a.add(b).raw_value(), 640);
    assert_eq!(b.add(a).raw_value(), 640);
    assert_eq!(a.sub(b).raw_value(), 384);
    assert_eq!(b.sub(a).raw_value(), -384);
    let c = FixedPoint::<i64, 8>::raw(-5);
    assert_eq!(a.add(b).add(c).raw_value(), a.add(b.add(c)).raw_value());
    assert_eq!(a.add(b).sub(b).raw_value(), a.raw_value());
}

#[test]
fn add_assign_accumulates() {
    let mut acc = FixedPoint::<i64, 4>::raw(1);
    acc.add_assign(FixedPoint::<i64, 4>::raw(2));
    acc.add_assign(FixedPoint::<i64, 4>::new(1));
    assert_eq!(acc.raw_value(), 19);
}

#[test]
fn mul_adds_scales() {
    let a = FixedPoint::<i64, 4>::raw(24);
    let b = FixedPoint::<i64, 2>::raw(-6);
    let p: FixedPoint<i64, 6> = a.mul(b);
    assert_eq!(p.raw_value(), -144);
    assert_eq!(p.to_decimal_string(), "-2.250000");
}

#[test]
fn div_subtracts_scales_and_truncates() {
    let a = FixedPoint::<i64, 4>::raw(-7);
    let b = FixedPoint::<i64, 0>::raw(2);
    let q: FixedPoint<i64, 4> = a.div(b);
    assert_eq!(q.raw_value(), -3);
    let r: FixedPoint<i64, 2> = FixedPoint::<i64, 6>::raw(7).div(FixedPoint::<i64, 4>::raw(-2));
    assert_eq!(r.raw_value(), -3);
    let s: FixedPoint<i128, 0> = FixedPoint::<i128, 0>::raw(i128::MIN).div(FixedPoint::<i128, 0>::raw(1));
    assert_eq!(s.raw_value(), i128::MIN);
}

#[test]
fn cast_widens() {
    let a = FixedPoint::<u8, 4>::raw(200);
    let b: FixedPoint<i64, 4> = a.cast();
    assert_eq!(b.raw_value(), 200);
    let c: FixedPoint<i128, 4> = FixedPoint::<i64, 4>::raw(i64::MIN).cast();
    assert_eq!(c.raw_value(), i64::MIN as i128);
}

#[test]
fn decimal_text_of_values() {
    assert_eq!(FixedPoint::<i64, 4>::raw(-24).to_decimal_string(), "-1.5000");
    assert_eq!(FixedPoint::<i64, 4>::raw(0).to_decimal_string(), ".0000");
    assert_eq!(FixedPoint::<i64, 4>::raw(8).to_decimal_string(), ".5000");
    assert_eq!(FixedPoint::<u8, 0>::raw(255).to_decimal_string(), "255.");
    assert_eq!(
        FixedPoint::<i128, 0>::raw(i128::MIN).to_decimal_string(),
        "-170141183460469231731687303715884105728."
    );
    let mut text = String::from("1.5");
    text.push_str(&"0".repeat(60));
    assert_eq!(FixedPoint::<i64, 61>::new(3).div::<0, 61>(FixedPoint::<i64, 0>::new(2)).to_decimal_string(), text);
}

#[test]
fn decimal_text_falls_back_where_the_digit_step_overflows() {
    let mut text = String::from(".");
    text.push_str(&"0".repeat(128));
    assert_eq!(FixedPoint::<i128, 128>::raw(1).to_decimal_string(), text);
}

#[test]
fn binary_text_is_the_bit_pattern() {
    let mut ones = "1".repeat(60);
    ones.push_str(".1111");
    assert_eq!(FixedPoint::<i64, 4>::raw(-1).to_binary_string(), ones);
    assert_eq!(FixedPoint::<u8, 0>::raw(5).to_binary_string(), "00000101.");
    assert_eq!(FixedPoint::<u8, 1>::raw(3).to_binary_string(), "0000001.1");
    let mut low = String::from(".");
    low.push_str(&"0".repeat(127));
    low.push('1');
    assert_eq!(FixedPoint::<i128, 128>::raw(1).to_binary_string(), low);
}

#[test]
fn binary_text_has_the_digit_counts() {
    for raw in [-300i64, -1, 0, 1, 77, i64::MAX, i64::MIN] {
        let s = FixedPoint::<i64, 10>::raw(raw).to_binary_string();
        assert_eq!(s.len(), 65);
        assert_eq!(s.find('.'), Some(54));
    }
}

#[test]
fn decimal_text_reads_back_within_last_digit() {
    for raw in [-1000000i64, -1, 0, 1, 1023, 1024, 777777, i64::MAX] {
        let s = FixedPoint::<i64, 10>::raw(raw).to_decimal_string();
        let body = s.trim_start_matches('-');
        let (whole, frac) = body.split_once('.').unwrap();
        assert_eq!(frac.len(), 10);
        let m = (raw as i128).unsigned_abs();
        let whole_value: u128 = if whole.is_empty() { 0 } else { whole.parse().unwrap() };
        assert_eq!(whole_value, m >> 10);
        let d: u128 = frac.parse().unwrap();
        let f = m & 1023;
        assert!(d * 1024 <= f * 10_000_000_000);
        assert!(f * 10_000_000_000 < (d + 1) * 1024);
        assert_eq!(s.starts_with('-'), raw < 0);
    }
}

#[test]
fn new_drops_high_bits_as_shift_does() {
    assert_eq!(FixedPoint::<u8, 4>::new(20).raw_value(), 20u8 << 4);
    assert_eq!(FixedPoint::<u8, 4>::new(20).raw_value(), 64);
    assert_eq!(FixedPoint::<i64, 60>::new(9).raw_value(), 9i64 << 60);
    assert_eq!(FixedPoint::<i64, 63>::new(1).raw_value(), i64::MIN);
    assert_eq!(FixedPoint::<i128, 127>::new(-3).raw_value(), -3i128 << 127);
    assert_eq!(FixedPoint::<i128, 127>::new(-3).raw_value(), i128::MIN);
}
