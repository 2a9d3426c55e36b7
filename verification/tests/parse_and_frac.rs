use dirtybench::frac::{dirty_byte_count, DirtyFraction};
use dirtybench::parse::parse_size;
use dirtybench::BenchError;

#[test]
fn parse_kilo() {
    assert_eq!(parse_size("1K"), Ok(1024));
    assert_eq!(parse_size("1k"), Ok(1024));
    assert_eq!(parse_size("1024K"), Ok(1024 * 1024));
}

#[test]
fn parse_mega_giga() {
    assert_eq!(parse_size("512M"), Ok(512 * 1024 * 1024));
    assert_eq!(parse_size("1G"), Ok(1024 * 1024 * 1024));
    assert_eq!(parse_size("2g"), Ok(2 * 1024 * 1024 * 1024));
}

#[test]
fn parse_plus_sign() {
    assert_eq!(parse_size("+10K"), Ok(10240));
}

#[test]
fn parse_invalid_suffix() {
    assert_eq!(parse_size("2X"), Err(BenchError::InvalidSuffix));
    assert_eq!(parse_size("10"), Err(BenchError::InvalidSuffix));
}

#[test]
fn parse_invalid_number() {
    assert_eq!(parse_size("K"), Err(BenchError::InvalidNumber));
    assert_eq!(parse_size("abcK"), Err(BenchError::InvalidNumber));
    assert_eq!(parse_size("+K"), Err(BenchError::InvalidNumber));
    assert_eq!(parse_size("1.5G"), Err(BenchError::InvalidNumber));
    assert_eq!(
        parse_size("99999999999999999999999999K"),
        Err(BenchError::InvalidNumber)
    );
}

#[test]
fn parse_size_overflow() {
    assert_eq!(
        parse_size("18446744073709551615G"),
        Err(BenchError::SizeOverflow)
    );
}

#[test]
fn fraction_bounds() {
    assert!(DirtyFraction::new(1, 10).is_ok());
    assert!(DirtyFraction::new(10, 10).is_ok());
    assert!(DirtyFraction::new(0, 10).is_ok());
    assert_eq!(DirtyFraction::new(11, 10), Err(BenchError::InvalidFraction));
    assert_eq!(DirtyFraction::new(1, 0), Err(BenchError::InvalidFraction));
}

#[test]
fn dirty_bytes_exact_tenth() {
    // round(1 MiB * 0.1) = round(104857.6) = 104858
    let f = DirtyFraction::new(1, 10).unwrap();
    assert_eq!(dirty_byte_count(1048576, f), 104858);
}

#[test]
fn dirty_bytes_zero_and_one() {
    assert_eq!(dirty_byte_count(1048576, DirtyFraction::zero()), 0);
    assert_eq!(dirty_byte_count(1048576, DirtyFraction::one()), 1048576);
    assert_eq!(dirty_byte_count(0, DirtyFraction::one()), 0);
}

#[test]
fn dirty_bytes_rounds_half_up() {
    // 3 * 1/2 = 1.5, which rounds to 2
    let half = DirtyFraction::new(1, 2).unwrap();
    assert_eq!(dirty_byte_count(3, half), 2);
    // 5 * 1/4 = 1.25, which rounds to 1
    let quarter = DirtyFraction::new(1, 4).unwrap();
    assert_eq!(dirty_byte_count(5, quarter), 1);
}
