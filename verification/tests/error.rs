use critical_path::error::DiceError;

#[test]
fn test_cycle_error() {
    let e = DiceError::cycle(
        String::from("k0"),
        vec![String::from("k1"), String::from("k2")],
    );
    match &e {
        DiceError::Cycle { trigger, cyclic_keys } => {
            assert_eq!(trigger, "k0");
            assert_eq!(cyclic_keys, &vec![String::from("k1"), String::from("k2")]);
        }
        _ => panic!("expected a cycle error"),
    }
    assert_eq!(e.message(), "cyclic computation detected");
}

#[test]
fn test_duplicate_error() {
    let e = DiceError::duplicate(String::from("k"));
    assert_eq!(e, DiceError::DuplicateChange(String::from("k")));
    assert_eq!(
        e.message(),
        "key marked as changed multiple times on the same transaction"
    );
}
