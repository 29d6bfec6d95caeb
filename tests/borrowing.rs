use mandelbrot::borrowing::{factorial, smallest, StringTable};

#[test]
fn smallest_of_a_parabola() {
    let parabola = [9, 4, 1, 0, 1, 4, 9];
    assert_eq!(*smallest(&parabola), 0);
    assert_eq!(*smallest(&[5]), 5);
    assert_eq!(*smallest(&[3, -2, 7, -2]), -2);
}

#[test]
fn smallest_points_at_the_first_minimum() {
    let v = [3, 1, 1];
    let s = smallest(&v);
    assert!(std::ptr::eq(s, &v[1]));
}

#[test]
fn factorial_values() {
    assert_eq!(factorial(0), 1);
    assert_eq!(factorial(1), 1);
    assert_eq!(factorial(6), 720);
    assert_eq!(factorial(6) + 1009, 1729);
    assert_eq!(factorial(20), 2432902008176640000);
}

#[test]
fn find_by_prefix_in_tables() {
    let t = StringTable { elements: Vec::new() };
    assert_eq!(t.find_by_prefix("t"), None);

    let t = StringTable { elements: vec!["test".to_string()] };
    assert_eq!(t.find_by_prefix("t"), Some(&"test".to_string()));

    let t = StringTable {
        elements: vec!["alpha".to_string(), "beta".to_string(), "betamax".to_string()],
    };
    assert_eq!(t.find_by_prefix("beta"), Some(&"beta".to_string()));
    assert_eq!(t.find_by_prefix("betam"), Some(&"betamax".to_string()));
    assert_eq!(t.find_by_prefix(""), Some(&"alpha".to_string()));
    assert_eq!(t.find_by_prefix("gamma"), None);
    assert_eq!(t.find_by_prefix("alphabet"), None);
}
