use critical_path::transaction::{DiceTransaction, VersionNumber};

#[test]
fn test_commit_without_changes_keeps_version() {
    let t = DiceTransaction::new(VersionNumber(4));
    assert_eq!(t.version(), VersionNumber(4));
    let t = t.commit();
    assert_eq!(t.version(), VersionNumber(4));
}

#[test]
fn test_commit_with_changes_advances_version() {
    let mut t = DiceTransaction::new(VersionNumber(4));
    t.changed();
    t.changed();
    let t = t.commit();
    assert_eq!(t.version(), VersionNumber(5));
    let t = t.commit();
    assert_eq!(t.version(), VersionNumber(5));
}

#[test]
fn test_equivalent() {
    let a = DiceTransaction::new(VersionNumber(7));
    let b = DiceTransaction::new(VersionNumber(7));
    let c = DiceTransaction::new(VersionNumber(8));
    assert!(a.equivalent(&b));
    assert!(!a.equivalent(&c));
    assert!(a.equivalent(&VersionNumber(7)));
    assert!(!a.equivalent(&VersionNumber(9)));
}

#[test]
fn test_unstable_take_keeps_handle() {
    let mut t = DiceTransaction::new(VersionNumber(3));
    t.changed();
    let taken = t.unstable_take();
    assert_eq!(taken, t);
    assert_eq!(taken.version(), VersionNumber(3));
}
