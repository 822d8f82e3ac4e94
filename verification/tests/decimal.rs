use rustyjson::decimal::format_decimal;

#[test]
fn test_format_decimal() {
    // 123.45 = coef=12345, exp=-2, sign=1
    assert_eq!(format_decimal(12345, -2, 1), "123.45");

    // -123.45
    assert_eq!(format_decimal(12345, -2, -1), "-123.45");

    // 5 = coef=5, exp=0, sign=1
    assert_eq!(format_decimal(5, 0, 1), "5");

    // 1000 = coef=1, exp=3, sign=1
    assert_eq!(format_decimal(1, 3, 1), "1000");

    // 0.001 = coef=1, exp=-3, sign=1
    assert_eq!(format_decimal(1, -3, 1), "0.001");

    // 0.00123 = coef=123, exp=-5, sign=1
    assert_eq!(format_decimal(123, -5, 1), "0.00123");
}
