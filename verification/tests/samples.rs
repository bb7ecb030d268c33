use meter_panel::sample::Sample;

fn sample(value: f32) -> Sample {
    Sample::from_millis((value as f64 * 1000.0).round() as i64)
}

#[test]
fn whole_values_fill_the_field_from_the_right() {
    assert_eq!(Sample::from_units(55).format(3, 0), " 55");
    assert_eq!(Sample::from_units(42).format(3, 0), " 42");
    assert_eq!(Sample::from_units(5).format(3, 0), "  5");
    assert_eq!(Sample::from_units(0).format(3, 0), "  0");
    assert_eq!(Sample::from_units(100).format(3, 0), "100");
}

#[test]
fn a_text_longer_than_the_field_is_not_cut() {
    assert_eq!(Sample::from_units(1000).format(3, 0), "1000");
    assert_eq!(Sample::from_units(123456).format(0, 0), "123456");
    assert_eq!(Sample::from_millis(12346).format(3, 2), "12.35");
}

#[test]
fn values_below_zero_carry_a_sign() {
    assert_eq!(Sample::from_units(-5).format(3, 0), " -5");
    assert_eq!(Sample::from_units(-55).format(3, 0), "-55");
    assert_eq!(Sample::from_millis(-1250).format(6, 1), "  -1.2");
}

#[test]
fn digits_after_the_point_are_rounded_to_the_nearest() {
    assert_eq!(Sample::from_millis(12345).format(0, 1), "12.3");
    assert_eq!(Sample::from_millis(12355).format(0, 1), "12.4");
    assert_eq!(Sample::from_millis(12345).format(0, 3), "12.345");
    assert_eq!(Sample::from_millis(999).format(0, 0), "1");
    assert_eq!(Sample::from_millis(9996).format(0, 2), "10.00");
    assert_eq!(Sample::from_millis(7).format(0, 3), "0.007");
    assert_eq!(Sample::from_millis(7).format(0, 2), "0.01");
}

#[test]
fn a_tie_goes_to_the_even_neighbour() {
    assert_eq!(Sample::from_millis(500).format(0, 0), "0");
    assert_eq!(Sample::from_millis(1500).format(0, 0), "2");
    assert_eq!(Sample::from_millis(2500).format(0, 0), "2");
    assert_eq!(Sample::from_millis(3500).format(0, 0), "4");
    assert_eq!(Sample::from_millis(150).format(0, 1), "0.2");
    assert_eq!(Sample::from_millis(250).format(0, 1), "0.2");
    assert_eq!(Sample::from_millis(12375).format(0, 2), "12.38");
    assert_eq!(Sample::from_millis(12365).format(0, 2), "12.36");
}

#[test]
fn digits_beyond_the_thousandths_are_zeros() {
    assert_eq!(Sample::from_millis(1500).format(0, 5), "1.50000");
    assert_eq!(Sample::from_millis(-2).format(10, 4), "   -0.0020");
}

#[test]
fn the_extremes_are_formatted() {
    assert_eq!(
        Sample::from_millis(i64::MAX).format(0, 3),
        "9223372036854775.807"
    );
    assert_eq!(
        Sample::from_millis(i64::MIN).format(0, 3),
        "-9223372036854775.808"
    );
    assert_eq!(Sample::from_millis(i64::MIN).format(0, 0), "-9223372036854776");
    assert_eq!(Sample::from_units(i32::MIN).format(0, 0), "-2147483648");
}

#[test]
fn format_agrees_with_the_formatting_of_floats() {
    let values: [f32; 10] = [0.0, 42.0, 55.0, 60.0, 0.5, 1.5, 2.5, 99.5, 7.125, 12.375];
    for value in values {
        assert_eq!(sample(value).format(3, 0), format!("{:>3.0}", value));
        assert_eq!(sample(value).format(6, 1), format!("{:>6.1}", value));
        assert_eq!(sample(value).format(8, 2), format!("{:>8.2}", value));
        assert_eq!(sample(value).format(0, 3), format!("{:.3}", value));
    }
}

#[test]
fn from_units_counts_thousandths() {
    assert_eq!(Sample::from_units(55), Sample::from_millis(55000));
    assert_eq!(Sample::from_units(-1).millis, -1000);
    assert_eq!(Sample::from_millis(17).millis, 17);
}
