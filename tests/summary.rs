use param_loader::summary::{my_mul, my_sum};

#[test]
fn sum_of_sizes() {
    assert_eq!(my_sum(4, 4), 8);
    assert_eq!(my_sum(0, 7), 7);
}

#[test]
fn product_of_sizes() {
    assert_eq!(my_mul(4, 4), 16);
    assert_eq!(my_mul(12, 0), 0);
}
