use mandelbrot::gcd::{gcd, gcd_all, parse_numbers};

#[test]
fn test_gcd() {
    assert_eq!(gcd(14, 15), 1);
    assert_eq!(gcd(2 * 3 * 5 * 11 * 17, 3 * 7 * 11 * 13 * 19), 3 * 11);
}

#[test]
fn main_test_gcd() {
    assert_eq!(gcd(14, 15), 1);
    assert_eq!(gcd(2 * 3 * 5 * 11 * 17, 3 * 7 * 11 * 13 * 19), 3 * 11);
}

#[test]
fn gcd_of_equal_and_dividing_numbers() {
    assert_eq!(gcd(12, 12), 12);
    assert_eq!(gcd(4, 12), 4);
    assert_eq!(gcd(12, 4), 4);
    assert_eq!(gcd(1, u64::MAX), 1);
    assert_eq!(gcd(u64::MAX, u64::MAX), u64::MAX);
}

#[test]
fn gcd_all_of_several_numbers() {
    assert_eq!(gcd_all(&vec![42, 56, 14]), 14);
    assert_eq!(gcd_all(&vec![7]), 7);
    assert_eq!(gcd_all(&vec![0]), 0);
    assert_eq!(gcd_all(&vec![9, 28]), 1);
}

#[test]
fn parse_numbers_reads_every_text() {
    let texts = vec!["42".to_string(), "+7".to_string(), "007".to_string()];
    assert_eq!(parse_numbers(&texts), Ok(vec![42, 7, 7]));
    assert_eq!(parse_numbers(&vec![]), Ok(vec![]));
    let max = vec!["18446744073709551615".to_string()];
    assert_eq!(parse_numbers(&max), Ok(vec![u64::MAX]));
}

#[test]
fn parse_numbers_names_the_first_bad_text() {
    let texts = vec!["1".to_string(), "x".to_string(), "-3".to_string()];
    assert_eq!(parse_numbers(&texts), Err(1));
    assert_eq!(parse_numbers(&vec!["".to_string()]), Err(0));
    assert_eq!(parse_numbers(&vec!["+".to_string()]), Err(0));
    assert_eq!(parse_numbers(&vec!["-0".to_string()]), Err(0));
    assert_eq!(parse_numbers(&vec![" 1".to_string()]), Err(0));
    let over = vec!["5".to_string(), "18446744073709551616".to_string()];
    assert_eq!(parse_numbers(&over), Err(1));
}
