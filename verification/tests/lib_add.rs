#[test]
fn should_return_sum_when_both_inputs_are_positive() {
    assert_eq!(5, rinkaku::add(2, 3));
}

#[test]
fn should_return_zero_when_inputs_are_additive_inverses() {
    assert_eq!(0, rinkaku::add(5, -5));
}
