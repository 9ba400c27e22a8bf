use exploding_dice::die::Die;

#[test]
fn sides_of_every_die() {
    assert_eq!(Die::D4.sides(), 4);
    assert_eq!(Die::D6.sides(), 6);
    assert_eq!(Die::D8.sides(), 8);
    assert_eq!(Die::D10.sides(), 10);
    assert_eq!(Die::D12.sides(), 12);
    assert_eq!(Die::D20.sides(), 20);
}

#[test]
fn ladder_steps_up_and_saturates() {
    assert_eq!(Die::D4.next(), Die::D6);
    assert_eq!(Die::D6.next(), Die::D8);
    assert_eq!(Die::D8.next(), Die::D10);
    assert_eq!(Die::D10.next(), Die::D12);
    assert_eq!(Die::D12.next(), Die::D20);
    assert_eq!(Die::D20.next(), Die::D20);
}
