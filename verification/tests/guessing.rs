use iaas_core::guess::check_guess;
use std::cmp::Ordering;

#[test]
fn test_check_guess_ordering() {
    assert_eq!(check_guess(50, 100), Ordering::Less);
    assert_eq!(check_guess(150, 100), Ordering::Greater);
    assert_eq!(check_guess(100, 100), Ordering::Equal);
}

#[test]
fn test_range_validation_logic_helper() {
    // Simulating logic: max must be > min
    let min: u32 = 10;
    let max: u32 = 20;
    assert!(max > min);

    let min: u32 = 20;
    let max: u32 = 10;
    assert!(!(max > min));
}
