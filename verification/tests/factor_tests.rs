use pandigrid::factor::Factor;

#[test]
fn two_to_the_fifth() {
    let f = Factor::new(2, 5);
    assert_eq!(f.value(), 32);
}

#[test]
fn zero_exponent_gives_one() {
    assert_eq!(Factor::new(7, 0).value(), 1);
    assert_eq!(Factor::new(0, 0).value(), 1);
}

#[test]
fn zero_base_powers_vanish() {
    assert_eq!(Factor::new(0, 3).value(), 0);
}

#[test]
fn new_keeps_base_and_exponent() {
    let f = Factor::new(3, 4);
    assert_eq!(f.base, 3);
    assert_eq!(f.exponent, 4);
    assert_eq!(f.value(), 81);
}
