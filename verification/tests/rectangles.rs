use iaas_core::Rectangle;

#[test]
fn test_rectangle_area() {
    let rect = Rectangle::new(10, 5);
    assert_eq!(rect.area(), 50);
}

#[test]
fn test_rectangle_can_hold() {
    let large = Rectangle::new(100, 100);
    let small = Rectangle::new(50, 50);
    let tall = Rectangle::new(10, 150);

    assert!(large.can_hold(&small));
    assert!(!small.can_hold(&large));
    assert!(!large.can_hold(&tall));
}

#[test]
fn test_rectangle_new() {
    let rect = Rectangle::new(20, 30);
    assert_eq!(rect.width, 20);
    assert_eq!(rect.height, 30);
}
