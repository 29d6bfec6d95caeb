use mandelbrot::pair::{both, parse_pair, split_pair};

#[test]
fn test_parse_pair() {
    assert_eq!(parse_pair::<i32>("", ','), None);
    assert_eq!(parse_pair::<i32>("10,", ','), None);
    assert_eq!(parse_pair::<i32>(",10", ','), None);
    assert_eq!(parse_pair::<i32>("10,20", ','), Some((10, 20)));
    assert_eq!(parse_pair::<i32>("10,20xy", ','), None);
    assert_eq!(parse_pair::<f64>("0.5x", 'x'), None);
    assert_eq!(parse_pair::<f64>("0.5x1.5", 'x'), Some((0.5, 1.5)));
}

#[test]
fn parse_pair_of_image_sizes() {
    assert_eq!(parse_pair::<usize>("1000x750", 'x'), Some((1000, 750)));
    assert_eq!(parse_pair::<usize>("1000", 'x'), None);
    assert_eq!(parse_pair::<f64>("-1.20,0.35", ','), Some((-1.20, 0.35)));
}

#[test]
fn split_pair_splits_at_the_first_separator() {
    assert_eq!(split_pair("10,20", ','), Some(("10", "20")));
    assert_eq!(split_pair("a,b,c", ','), Some(("a", "b,c")));
    assert_eq!(split_pair(",", ','), Some(("", "")));
    assert_eq!(split_pair("é×ü", '×'), Some(("é", "ü")));
    assert_eq!(split_pair("abc", ','), None);
    assert_eq!(split_pair("", ','), None);
}

#[test]
fn both_needs_both_halves() {
    assert_eq!(both(Some(1), Some(2)), Some((1, 2)));
    assert_eq!(both(Some(1), None::<i32>), None);
    assert_eq!(both(None, Some(2)), None);
}
