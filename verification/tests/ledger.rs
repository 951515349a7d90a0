use maestro::ledger::{Names, PodAmounts};

#[test]
fn the_later_amount_counts() {
    let mut a = PodAmounts::new();
    a.insert("x".to_string(), 5);
    a.insert("x".to_string(), 7);
    assert_eq!(a.get("x"), Some(7));
    let mut b = PodAmounts::new();
    b.insert("x".to_string(), 9);
    b.insert("y".to_string(), 1);
    a.merge(&b);
    assert_eq!((a.get("x"), a.get("y"), a.get("z")), (Some(9), Some(1), None));
    assert_eq!(a.copy().get("x"), Some(9));
}

#[test]
fn reservations_leave_nothing_below_nothing() {
    let mut a = PodAmounts::new();
    a.insert("x".to_string(), 9);
    a.insert("w".to_string(), 4);
    let mut held = PodAmounts::new();
    held.insert("x".to_string(), 4);
    held.insert("z".to_string(), 3);
    let left = a.reserving(&held);
    assert_eq!((left.get("x"), left.get("w"), left.get("z")), (Some(5), Some(4), Some(0)));
}

#[test]
fn names_are_found_both_ways() {
    let mut names = Names::new();
    names.insert("1".to_string(), "Rent".to_string());
    names.insert("2".to_string(), "Food".to_string());
    names.insert("1".to_string(), "Home".to_string());
    assert_eq!(names.name("1"), "Home");
    assert_eq!(names.name("9"), "9");
    assert_eq!(names.find("Food"), Some("2".to_string()));
    assert_eq!(names.find("Rent"), None);
}
