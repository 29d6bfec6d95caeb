use mandelbrot::bands::{band_layout, rows_per_band, Band};
use mandelbrot::escape::escape_count;
use mandelbrot::render::{render, shade};
use num::Complex;

fn mandelbrot_step(c: Complex<f64>) -> impl Fn(Complex<f64>) -> (Complex<f64>, bool) {
    move |z: Complex<f64>| {
        let next = z * z + c;
        (next, next.norm_sqr() > 4.0)
    }
}

#[test]
fn shade_inverts_escape_counts() {
    assert_eq!(shade(None), 0);
    assert_eq!(shade(Some(0)), 255);
    assert_eq!(shade(Some(1)), 254);
    assert_eq!(shade(Some(200)), 55);
    assert_eq!(shade(Some(255)), 0);
}

#[test]
fn shade_wraps_counts_past_a_byte() {
    assert_eq!(shade(Some(256)), 255);
    assert_eq!(shade(Some(300)), 211);
}

#[test]
fn render_writes_rows_in_order() {
    let mut pixels = vec![7u8; 6];
    render(&mut pixels, (3, 2), |column: usize, row: usize| {
        Some((10 * row + column) as u32)
    });
    assert_eq!(pixels, vec![255, 254, 253, 245, 244, 243]);
}

#[test]
fn render_marks_members_black() {
    let mut pixels = vec![1u8; 4];
    render(&mut pixels, (2, 2), |column: usize, row: usize| {
        if column == row { None } else { Some(5) }
    });
    assert_eq!(pixels, vec![0, 250, 250, 0]);
}

#[test]
fn rows_per_band_rounds_up() {
    assert_eq!(rows_per_band(16, 8), 2);
    assert_eq!(rows_per_band(10, 4), 3);
    assert_eq!(rows_per_band(9, 6), 2);
    assert_eq!(rows_per_band(3, 8), 1);
    assert_eq!(rows_per_band(0, 3), 0);
}

#[test]
fn band_layout_even_split() {
    let bands = band_layout(16, 8);
    assert_eq!(bands.len(), 8);
    for (i, band) in bands.iter().enumerate() {
        assert_eq!(*band, Band { top: 2 * i, rows: 2 });
    }
}

#[test]
fn band_layout_uneven_split() {
    assert_eq!(
        band_layout(10, 4),
        vec![
            Band { top: 0, rows: 3 },
            Band { top: 3, rows: 3 },
            Band { top: 6, rows: 3 },
            Band { top: 9, rows: 1 },
        ]
    );
    assert_eq!(band_layout(9, 6).len(), 5);
    assert_eq!(band_layout(3, 8).len(), 3);
    assert_eq!(band_layout(1, 1), vec![Band { top: 0, rows: 1 }]);
    assert_eq!(band_layout(0, 4), vec![]);
}

#[test]
fn band_layout_covers_every_row_once() {
    for height in 1..40usize {
        for workers in 1..12usize {
            let bands = band_layout(height, workers);
            assert!(bands.len() <= workers);
            let mut seen = vec![0u32; height];
            for band in &bands {
                assert!(band.rows > 0);
                for row in band.top..band.top + band.rows {
                    seen[row] += 1;
                }
            }
            assert!(seen.iter().all(|&n| n == 1));
        }
    }
}

#[test]
fn byte_range_of_a_band() {
    let band = Band { top: 3, rows: 2 };
    assert_eq!(band.byte_range(10), (30, 50));
}

#[test]
fn banded_render_equals_whole_render() {
    let (width, height) = (7usize, 11usize);
    let escape = |column: usize, row: usize| -> Option<u32> {
        if (column * 3 + row) % 5 == 0 { None } else { Some((column * row) as u32) }
    };
    let mut whole = vec![0u8; width * height];
    render(&mut whole, (width, height), escape);
    for workers in 1..14usize {
        let mut banded = vec![0u8; width * height];
        let mut rest: &mut [u8] = &mut banded;
        for band in band_layout(height, workers) {
            let (start, end) = band.byte_range(width);
            let (part, tail) = rest.split_at_mut(end - start);
            let top = band.top;
            render(part, (width, band.rows), move |column: usize, row: usize| {
                escape(column, row + top)
            });
            rest = tail;
        }
        assert_eq!(banded, whole);
    }
}

#[test]
fn escape_count_origin_never_escapes() {
    let origin = Complex { re: 0.0, im: 0.0 };
    assert_eq!(escape_count(origin, 255, mandelbrot_step(origin)), None);
}

#[test]
fn escape_count_far_point_escapes_at_once() {
    let zero = Complex { re: 0.0, im: 0.0 };
    let far = Complex { re: 100.0, im: 0.0 };
    assert_eq!(escape_count(zero, 255, mandelbrot_step(far)), Some(0));
}

#[test]
fn escape_count_counts_steps_before_escape() {
    let zero = Complex { re: 0.0, im: 0.0 };
    let c = Complex { re: 1.0, im: 0.0 };
    // 0 -> 1 -> 2 -> 5: the third step leaves the disk of radius two.
    assert_eq!(escape_count(zero, 255, mandelbrot_step(c)), Some(2));
    assert_eq!(escape_count(zero, 2, mandelbrot_step(c)), None);
    assert_eq!(escape_count(zero, 0, mandelbrot_step(c)), None);
}

#[test]
fn escape_count_with_integer_orbit() {
    let step = |n: u64| (n + 1, n + 1 >= 10);
    assert_eq!(escape_count(0u64, 100, step), Some(9));
    assert_eq!(escape_count(0u64, 9, step), None);
    assert_eq!(escape_count(5u64, 100, step), Some(4));
}
