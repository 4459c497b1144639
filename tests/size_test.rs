use space_rs::size::{Size, SizeDisplayFormat};

#[test]
fn get_value_returns_correct_value() {
    // Arrange
    const VALUE: u64 = 123;
    let item = Size::new(VALUE);

    // Act
    let value = item.get_value();

    // Assert
    assert_eq!(VALUE, value);
}

#[test]
fn subtract_smaller_value_results_in_difference() {
    let mut size = Size::new(100);
    size.subtract(10);
    assert_eq!(90, size.get_value());
}

#[test]
fn subtract_larger_value_results_in_zero() {
    let mut size = Size::new(10);
    size.subtract(100);
    assert_eq!(0, size.get_value());
}

#[test]
fn subtract_equal_value_results_in_zero() {
    let mut size = Size::new(42);
    size.subtract(42);
    assert_eq!(0, size.get_value());
}

#[test]
fn default_size_is_zero() {
    assert_eq!(0, Size::default().get_value());
}

fn best_divisor_and_unit(bytes: u64, format: SizeDisplayFormat) -> (u64, &'static str) {
    let data = Size::get_best_format(bytes, format);
    (data.divisor, data.unit)
}

#[test]
fn get_best_format_binary_boundaries() {
    let f = SizeDisplayFormat::Binary;
    assert_eq!((1, "B"), best_divisor_and_unit(0, f));
    assert_eq!((1, "B"), best_divisor_and_unit(1024, f));
    assert_eq!((1024, "KiB"), best_divisor_and_unit(1025, f));
    assert_eq!((1024, "KiB"), best_divisor_and_unit(1048576, f));
    assert_eq!((1048576, "MiB"), best_divisor_and_unit(1048577, f));
    assert_eq!((1048576, "MiB"), best_divisor_and_unit(1073741824, f));
    assert_eq!((1073741824, "GiB"), best_divisor_and_unit(1073741825, f));
    assert_eq!((1073741824, "GiB"), best_divisor_and_unit(u64::MAX, f));
}

#[test]
fn get_best_format_metric_boundaries() {
    let f = SizeDisplayFormat::Metric;
    assert_eq!((1, "B"), best_divisor_and_unit(0, f));
    assert_eq!((1, "B"), best_divisor_and_unit(1000, f));
    assert_eq!((1000, "KB"), best_divisor_and_unit(1001, f));
    assert_eq!((1000, "KB"), best_divisor_and_unit(1000000, f));
    assert_eq!((1000000, "MB"), best_divisor_and_unit(1000001, f));
    assert_eq!((1000000, "MB"), best_divisor_and_unit(1000000000, f));
    assert_eq!((1000000000, "GB"), best_divisor_and_unit(1000000001, f));
    assert_eq!((1000000000, "GB"), best_divisor_and_unit(u64::MAX, f));
}

#[test]
fn to_string_uses_strictly_greater_boundary() {
    assert_eq!("1 MiB", Size::new(1_048_577).to_string(SizeDisplayFormat::Binary));
    assert_eq!("1024 KiB", Size::new(1_048_576).to_string(SizeDisplayFormat::Binary));
}

#[test]
fn to_string_floors_the_quotient() {
    assert_eq!("180 KB", Size::new(180_999).to_string(SizeDisplayFormat::Metric));
    assert_eq!("0 B", Size::new(0).to_string(SizeDisplayFormat::Metric));
    assert_eq!("1023 B", Size::new(1023).to_string(SizeDisplayFormat::Binary));
    assert_eq!("500 B", Size::new(500).to_string(SizeDisplayFormat::Metric));
    assert_eq!("1 B", Size::new(1).to_string(SizeDisplayFormat::Metric));
    assert_eq!("72 KB", Size::new(72_000).to_string(SizeDisplayFormat::Metric));
}

#[test]
fn to_string_of_largest_value() {
    assert_eq!(
        "17179869183 GiB",
        Size::new(u64::MAX).to_string(SizeDisplayFormat::Binary)
    );
    assert_eq!(
        "18446744073 GB",
        Size::new(u64::MAX).to_string(SizeDisplayFormat::Metric)
    );
}

#[test]
fn sizes_order_by_value() {
    assert!(Size::new(1) < Size::new(2));
    assert_eq!(Size::new(7), Size::new(7));
}
