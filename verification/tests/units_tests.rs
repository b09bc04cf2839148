use dirstat::units::{GIGABYTE, KILOBYTE, MEGABYTE, TERABYTE};
use dirstat::{SizeUnit, SizeWithUnit};

fn render(bytes: u64) -> String {
    SizeWithUnit::new(bytes).render()
}

fn float_render(bytes: u64) -> String {
    let (divisor, unit) = if bytes < 1 << 10 {
        (1u64, "B")
    } else if bytes < 1 << 20 {
        (1u64 << 10, "KB")
    } else if bytes < 1 << 30 {
        (1u64 << 20, "MB")
    } else if bytes < 1 << 40 {
        (1u64 << 30, "GB")
    } else {
        (1u64 << 40, "TB")
    };
    format!("{:.2}{}", bytes as f64 / divisor as f64, unit)
}

#[test]
fn zero_is_rendered_in_bytes() {
    assert_eq!(render(0), "0.00B");
}

#[test]
fn last_count_in_bytes() {
    assert_eq!(render(1023), "1023.00B");
    assert_eq!(SizeWithUnit::new(1023).unit, SizeUnit::B);
}

#[test]
fn first_count_in_kilobytes() {
    assert_eq!(render(1024), "1.00KB");
    assert_eq!(SizeWithUnit::new(1024).unit, SizeUnit::KB);
}

#[test]
fn last_count_in_kilobytes_rounds_up() {
    let size = SizeWithUnit::new(1024 * 1024 - 1);
    assert_eq!(size.unit, SizeUnit::KB);
    assert_eq!(size.hundredths(), 102400);
    assert_eq!(size.render(), "1024.00KB");
}

#[test]
fn first_count_in_megabytes() {
    assert_eq!(render(1024 * 1024), "1.00MB");
    assert_eq!(SizeWithUnit::new(1024 * 1024).unit, SizeUnit::MB);
}

#[test]
fn gigabyte_thresholds() {
    assert_eq!(render(GIGABYTE - 1), "1024.00MB");
    assert_eq!(render(GIGABYTE), "1.00GB");
    assert_eq!(SizeWithUnit::new(GIGABYTE - 1).unit, SizeUnit::MB);
    assert_eq!(SizeWithUnit::new(GIGABYTE).unit, SizeUnit::GB);
}

#[test]
fn terabyte_thresholds() {
    assert_eq!(render(TERABYTE - 1), "1024.00GB");
    assert_eq!(render(TERABYTE), "1.00TB");
    assert_eq!(SizeWithUnit::new(TERABYTE - 1).unit, SizeUnit::GB);
    assert_eq!(SizeWithUnit::new(TERABYTE).unit, SizeUnit::TB);
}

#[test]
fn terabytes_have_no_upper_bound() {
    assert_eq!(render(5 * 1024 * TERABYTE), "5120.00TB");
    assert_eq!(render(u64::MAX), "16777216.00TB");
}

#[test]
fn scaled_value_is_rounded_to_two_places() {
    assert_eq!(render(3100), "3.03KB");
    assert_eq!(SizeWithUnit::new(3100).hundredths(), 303);
    assert_eq!(render(1536), "1.50KB");
    assert_eq!(render(1025), "1.00KB");
    assert_eq!(render(1030), "1.01KB");
    assert_eq!(render(10 * MEGABYTE + 52429), "10.05MB");
}

#[test]
fn a_tie_goes_to_the_even_hundredth() {
    // 1152 / 1024 = 1.125 and 1408 / 1024 = 1.375
    assert_eq!(SizeWithUnit::new(1152).hundredths(), 112);
    assert_eq!(SizeWithUnit::new(1408).hundredths(), 138);
    assert_eq!(render(1152), "1.12KB");
    assert_eq!(render(1408), "1.38KB");
    assert_eq!(render(1152), float_render(1152));
    assert_eq!(render(1408), float_render(1408));
}

#[test]
fn new_keeps_the_count() {
    let size = SizeWithUnit::new(123456789);
    assert_eq!(size.bytes, 123456789);
    assert_eq!(size.unit, SizeUnit::of(123456789));
    assert_eq!(size.unit, SizeUnit::MB);
}

#[test]
fn divisors_are_powers_of_1024() {
    assert_eq!(SizeUnit::B.divisor(), 1);
    assert_eq!(SizeUnit::KB.divisor(), KILOBYTE);
    assert_eq!(SizeUnit::MB.divisor(), 1024 * 1024);
    assert_eq!(SizeUnit::GB.divisor(), 1024 * 1024 * 1024);
    assert_eq!(SizeUnit::TB.divisor(), 1024u64 * 1024 * 1024 * 1024);
    assert_eq!(MEGABYTE, 1 << 20);
    assert_eq!(GIGABYTE, 1 << 30);
    assert_eq!(TERABYTE, 1 << 40);
}

#[test]
fn abbreviations() {
    assert_eq!(SizeUnit::B.abbreviation(), "B");
    assert_eq!(SizeUnit::KB.abbreviation(), "KB");
    assert_eq!(SizeUnit::MB.abbreviation(), "MB");
    assert_eq!(SizeUnit::GB.abbreviation(), "GB");
    assert_eq!(SizeUnit::TB.abbreviation(), "TB");
}

#[test]
fn rendering_agrees_with_floating_point_on_small_counts() {
    let mut bytes: u64 = 0;
    while bytes < 70000 {
        assert_eq!(render(bytes), float_render(bytes), "at {}", bytes);
        bytes += 1;
    }
}

#[test]
fn rendering_agrees_with_floating_point_on_spread_counts() {
    let mut bytes: u64 = 1;
    let mut step: u64 = 1;
    while bytes < (1 << 52) {
        assert_eq!(render(bytes), float_render(bytes), "at {}", bytes);
        assert_eq!(render(bytes - 1), float_render(bytes - 1), "at {}", bytes - 1);
        step = step * 3 + 1;
        bytes += step % 1000003 * (bytes / 977 + 1);
    }
}

#[test]
fn hundredths_are_nearest_to_the_quotient() {
    for bytes in [1024u64, 1029, 1030, 3100, 1048575, 5 * GIGABYTE + 12345] {
        let size = SizeWithUnit::new(bytes);
        let divisor = size.unit.divisor() as u128;
        let exact = bytes as u128 * 100;
        let rounded = size.hundredths() * divisor;
        let off = if rounded > exact { rounded - exact } else { exact - rounded };
        assert!(2 * off <= divisor);
    }
}
