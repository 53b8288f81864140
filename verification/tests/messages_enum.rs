use iaas_core::messages::Message;

#[test]
fn test_enum_variants_exist() {
    // Technically this just ensures the variants can be constructed
    let _q = Message::Quit;
    let _m = Message::Move { x: 1, y: 2 };
    let _w = Message::Write(String::from("test"));
    let _c = Message::ChangeColor(1, 2, 3);
}

#[test]
fn test_option_handling() {
    let some_val = Some(10);
    let none_val: Option<i32> = None;

    assert_eq!(some_val.unwrap(), 10);
    assert!(none_val.is_none());
}

#[test]
fn test_describe_each_variant() {
    assert_eq!(Message::Quit.describe(), "Quit variant triggered.");
    assert_eq!(
        Message::Move { x: 10, y: -30 }.describe(),
        "Move to x: 10, y: -30"
    );
    assert_eq!(
        Message::Write(String::from("hello")).describe(),
        "Text message: hello"
    );
    assert_eq!(
        Message::ChangeColor(0, 255, 255).describe(),
        "Change color to R:0, G:255, B:255"
    );
}
