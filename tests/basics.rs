use mandelbrot::basics::{build_vector, build_vector2};
use mandelbrot::render::new_pixel_buffer;

#[test]
fn test_build_vector() {
    assert_eq!(Some(&10i16), build_vector().get(0));
    assert_eq!(Some(&10), build_vector().get(0));
    assert_eq!(Some(&20i16), build_vector().get(1));

    assert_eq!(Some(&10), build_vector2().get(0));
    assert_eq!(Some(&10i16), build_vector2().get(0));
}

#[test]
fn build_vectors_hold_two_elements() {
    assert_eq!(build_vector(), vec![10, 20]);
    assert_eq!(build_vector2(), vec![10, 20]);
}

#[test]
fn new_pixel_buffer_is_zero_filled() {
    assert_eq!(new_pixel_buffer(2, 3), vec![0, 0, 0, 0, 0, 0]);
    assert_eq!(new_pixel_buffer(0, 5), Vec::<u8>::new());
}
