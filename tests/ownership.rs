use mandelbrot::ownership::{
    _using_rc, clone_moved_value, err_move_indexed, err_moved_value, move_indexed, padovan,
};

#[test]
fn padovan_first_ten() {
    assert_eq!(padovan(10), vec![1, 1, 1, 2, 2, 3, 4, 5, 7, 9]);
    assert_eq!(padovan(3), vec![1, 1, 1]);
}

#[test]
fn ownership_examples_run() {
    err_moved_value();
    clone_moved_value();
    err_move_indexed();
    move_indexed();
    _using_rc();
}
