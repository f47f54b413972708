use bitfield::util::{calculate_2_power, to_snake_case};

#[test]
fn powers_of_two_yield_their_exponent() {
    assert_eq!(calculate_2_power(1), Some(0));
    assert_eq!(calculate_2_power(2), Some(1));
    assert_eq!(calculate_2_power(8), Some(3));
    assert_eq!(calculate_2_power(64), Some(6));
    assert_eq!(calculate_2_power(4096), Some(12));
}

#[test]
fn non_powers_of_two_are_refused() {
    assert_eq!(calculate_2_power(0), None);
    assert_eq!(calculate_2_power(3), None);
    assert_eq!(calculate_2_power(6), None);
    assert_eq!(calculate_2_power(63), None);
    assert_eq!(calculate_2_power(65), None);
    assert_eq!(calculate_2_power(1000), None);
}

#[test]
fn snake_case_lowers_and_separates() {
    assert_eq!(to_snake_case(String::from("FooBar")), "foo_bar");
    assert_eq!(to_snake_case(String::from("Foo")), "foo");
    assert_eq!(to_snake_case(String::from("foo")), "foo");
    assert_eq!(to_snake_case(String::from("AbC")), "ab_c");
    assert_eq!(to_snake_case(String::from("already_snake")), "already_snake");
    assert_eq!(to_snake_case(String::from("")), "");
    assert_eq!(to_snake_case(String::from("_Xy0Z")), "__xy0_z");
}
